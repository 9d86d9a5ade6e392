use untar_hdfs::format::{get_format, stored_name, DecompressionFormat};

#[test]
fn format_by_suffix() {
    assert_eq!(get_format("a.txt.gz"), DecompressionFormat::Gzip);
    assert_eq!(get_format("dir/b.Z"), DecompressionFormat::UnixCompress);
    assert_eq!(get_format("c.txt"), DecompressionFormat::Plain);
    assert_eq!(get_format("d.z"), DecompressionFormat::Plain);
    assert_eq!(get_format(""), DecompressionFormat::Plain);
}

#[test]
fn stored_name_strips_suffixes() {
    assert_eq!(stored_name("a.txt.gz"), "a.txt");
    assert_eq!(stored_name("b.txt.Z"), "b.txt");
    assert_eq!(stored_name("c.txt"), "c.txt");
    assert_eq!(stored_name("d.Z.gz"), "d.Z");
    assert_eq!(stored_name("e.gz.gz"), "e.gz");
    assert_eq!(stored_name("f.gz.Z"), "f.gz");
    assert_eq!(stored_name("g.z"), "g.z");
    assert_eq!(stored_name(".gz"), "");
}
