use sd_models_manager::paths::{
    extension, file_name, get_relative_path, join, parent, plain_file_name, set_extension,
    PathError,
};
use std::path::{Path, PathBuf};

const SAMPLES: [&str; 44] = [
    "",
    "/",
    "//",
    ".",
    "..",
    "./",
    "./.",
    "a",
    "a/",
    "a//",
    "a/.",
    "a/./",
    "a/..",
    "/a",
    "/a/",
    "/a/.",
    "//a//b//",
    "a/b",
    "a//b",
    "a/./b",
    "/a/./b",
    "./a",
    "./a/b/.",
    "../a",
    "a/../b",
    "/data/models",
    "/data/models/",
    "/data/models/sub/model.safetensors",
    "/data/models//sub/./model.safetensors/",
    "/data/mod",
    "foo.txt",
    "foo.",
    ".foo",
    ".foo.bar",
    "foo.tar.gz",
    "dir.d/foo",
    "dir.d/foo/",
    "dir.d/.hidden",
    "a/b.c/.",
    "...",
    "a/...",
    "/.",
    "/..",
    "/./a/b",
];

fn text(path: &Path) -> String {
    path.to_str().unwrap().to_string()
}

#[test]
fn file_name_is_that_of_the_standard_library() {
    for p in SAMPLES {
        let expected = Path::new(p).file_name().map(|n| n.to_str().unwrap().to_string());
        assert_eq!(plain_file_name(p), expected, "file name of {:?}", p);
    }
}

#[test]
fn extension_is_that_of_the_standard_library() {
    for p in SAMPLES {
        let expected = Path::new(p).extension().map(|n| n.to_str().unwrap().to_string());
        assert_eq!(extension(p), expected, "extension of {:?}", p);
    }
}

#[test]
fn set_extension_is_that_of_the_standard_library() {
    for p in SAMPLES {
        for ext in ["json", "jpeg", "", "tar.gz"] {
            let mut expected = PathBuf::from(p);
            expected.set_extension(ext);
            assert_eq!(set_extension(p, ext), text(&expected), "{:?} with {:?}", p, ext);
        }
    }
}

#[test]
fn join_is_that_of_the_standard_library() {
    for base in SAMPLES {
        for rel in SAMPLES {
            assert_eq!(join(base, rel), text(&Path::new(base).join(rel)), "{:?} + {:?}", base, rel);
        }
    }
}

#[test]
fn relative_path_is_that_of_the_standard_library() {
    for base in SAMPLES {
        for p in SAMPLES {
            let expected = match Path::new(p).strip_prefix(base) {
                Ok(rest) => Ok(text(rest)),
                Err(_) => Err(PathError::NotUnderBase),
            };
            assert_eq!(get_relative_path(base, p), expected, "{:?} from {:?}", p, base);
        }
    }
}

#[test]
fn parent_is_that_of_the_standard_library() {
    for p in SAMPLES {
        if let Some(expected) = Path::new(p).parent() {
            assert_eq!(parent(p), text(expected), "parent of {:?}", p);
        }
    }
}

#[test]
fn relative_path_under_base() {
    assert_eq!(
        get_relative_path("/data/models", "/data/models/sub/model.safetensors"),
        Ok("sub/model.safetensors".to_string())
    );
    assert_eq!(get_relative_path("/data/models/", "/data/models/a.ckpt"), Ok("a.ckpt".to_string()));
    assert_eq!(get_relative_path("/data/models", "/data/models"), Ok(String::new()));
    assert_eq!(get_relative_path("/data/models", "/data/models/sub/"), Ok("sub".to_string()));
    assert_eq!(get_relative_path("/a", "/a/./b"), Ok("b".to_string()));
    assert_eq!(get_relative_path("/a//", "//a/b/./c/."), Ok("b/./c".to_string()));
}

#[test]
fn relative_path_of_root_and_empty_base() {
    assert_eq!(get_relative_path("/", "/a/b"), Ok("a/b".to_string()));
    assert_eq!(get_relative_path("/", "a/b"), Err(PathError::NotUnderBase));
    assert_eq!(get_relative_path("", "a/b"), Ok("a/b".to_string()));
}

#[test]
fn relative_path_outside_base_is_rejected() {
    assert_eq!(get_relative_path("/data/mod", "/data/models/a.ckpt"), Err(PathError::NotUnderBase));
    assert_eq!(get_relative_path("/data/models", "/other/a.ckpt"), Err(PathError::NotUnderBase));
    assert_eq!(get_relative_path("/data/models", "/data"), Err(PathError::NotUnderBase));
    assert_eq!(get_relative_path("a", "./a"), Err(PathError::NotUnderBase));
}

#[test]
fn extension_rules() {
    assert_eq!(extension("sub/model.safetensors"), Some("safetensors".to_string()));
    assert_eq!(extension("sub.d/model"), None);
    assert_eq!(extension(".hidden"), None);
    assert_eq!(extension("a.tar.gz"), Some("gz".to_string()));
    assert_eq!(extension("name."), Some(String::new()));
    assert_eq!(extension(".."), None);
    assert_eq!(extension(""), None);
    assert_eq!(extension("sub/model.ckpt/"), Some("ckpt".to_string()));
}

#[test]
fn set_extension_rules() {
    assert_eq!(set_extension("sub/model.safetensors", "json"), "sub/model.json");
    assert_eq!(set_extension("sub/model", "jpeg"), "sub/model.jpeg");
    assert_eq!(set_extension("sub/model.png", ""), "sub/model");
    assert_eq!(set_extension("sub/", "json"), "sub.json");
    assert_eq!(set_extension(".hidden", "json"), ".hidden.json");
    assert_eq!(set_extension("a/..", "json"), "a/..");
    assert_eq!(set_extension("a.tar.gz", "zip"), "a.tar.zip");
}

#[test]
fn join_parent_and_name() {
    assert_eq!(join("/data/models", "sub/a.ckpt"), "/data/models/sub/a.ckpt");
    assert_eq!(join("/data/models/", "a.ckpt"), "/data/models/a.ckpt");
    assert_eq!(join("/data/models", "/abs/a.ckpt"), "/abs/a.ckpt");
    assert_eq!(join("", "a.ckpt"), "a.ckpt");
    assert_eq!(join("/data", ""), "/data/");
    assert_eq!(parent("sub/deep/a.ckpt"), "sub/deep");
    assert_eq!(parent("sub//a.ckpt"), "sub");
    assert_eq!(parent("a.ckpt"), "");
    assert_eq!(parent(""), "");
    assert_eq!(parent("/a"), "/");
    assert_eq!(file_name("sub/deep/a.ckpt"), "a.ckpt");
    assert_eq!(file_name("sub/"), "sub");
    assert_eq!(file_name("/"), "");
}

#[test]
fn plain_file_name_rules() {
    assert_eq!(plain_file_name("sub/a.ckpt"), Some("a.ckpt".to_string()));
    assert_eq!(plain_file_name("sub/"), Some("sub".to_string()));
    assert_eq!(plain_file_name("sub/.."), None);
    assert_eq!(plain_file_name("."), None);
    assert_eq!(plain_file_name("..."), Some("...".to_string()));
}
