//! Tests of the build configuration and the project directory layout.

use mold::dir::directories;
use mold::mold::Mold;

#[test]
fn add_single_template_dir() {
    let mut m = Mold::new();

    m.add_templates_dir(String::from("test/"));

    assert_eq!(1, m.paths.templates.len());
    assert_eq!(m.paths.templates.get(0), Some(&String::from("test/")));
}

#[test]
fn add_single_modules_dir() {
    let mut m = Mold::new();

    m.add_modules_dir(String::from("test/"));

    assert_eq!(1, m.paths.modules.len());
    assert_eq!(m.paths.modules.get(0), Some(&String::from("test/")));
}

#[test]
fn add_single_content_dir() {
    let mut m = Mold::new();

    m.add_content_dir(String::from("test/"));

    assert_eq!(1, m.paths.content.len());
    assert_eq!(m.paths.content.get(0), Some(&String::from("test/")));
}

#[test]
fn add_single_static_dir() {
    let mut m = Mold::new();

    m.add_static_dir(String::from("test/"));

    assert_eq!(1, m.paths.statics.len());
    assert_eq!(m.paths.statics.get(0), Some(&String::from("test/")));
}

#[test]
fn dir_count() {
    assert_eq!(4, directories().len());
}

#[test]
fn dir_names() {
    let dirs = directories();
    assert_eq!(dirs[0], "templates/");
    assert_eq!(dirs[1], "modules/");
    assert_eq!(dirs[2], "content/");
    assert_eq!(dirs[3], "static/");
}
