use vfstool_lib::print::{blue, err_prefix, green, red, success_prefix};

#[test]
fn prefixes_wrap_their_tag_in_colour() {
    assert_eq!(err_prefix(), "\x1b[31m[ ERROR ]\x1b[0m: ");
    assert_eq!(success_prefix(), "\x1b[32m[ SUCCESS ]\x1b[0m: ");
}

#[test]
fn colours_wrap_the_text() {
    assert_eq!(red("a"), "\x1b[31ma\x1b[0m");
    assert_eq!(blue("meshes/x.nif"), "\x1b[34mmeshes/x.nif\x1b[0m");
    assert_eq!(green(""), "\x1b[32m\x1b[0m");
}
