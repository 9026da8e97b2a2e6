use twig::library::normalize_library_name;

#[test]
fn test_normalize_library_name_lowercase() {
    assert_eq!(normalize_library_name("MyLib"), "mylib");
}

#[test]
fn test_normalize_library_name_special_chars() {
    assert_eq!(normalize_library_name("My-Code Lib"), "my_code_lib");
    assert_eq!(normalize_library_name("My_Code_Lib"), "my_code_lib");
    assert_eq!(normalize_library_name("My.Code.Lib"), "my_code_lib");
}

#[test]
fn test_normalize_library_name_trim_underscores() {
    assert_eq!(normalize_library_name("_MyLib_"), "mylib");
    assert_eq!(normalize_library_name("__MyLib__"), "mylib");
}

#[test]
fn test_normalize_library_name_alphanumeric() {
    assert_eq!(normalize_library_name("lib123"), "lib123");
    assert_eq!(normalize_library_name("123lib"), "123lib");
}

#[test]
fn test_library_name_normalization() {
    assert_eq!(normalize_library_name("My-Code Lib"), "my_code_lib");
    assert_eq!(normalize_library_name("DataScience"), "datascience");
    assert_eq!(normalize_library_name("_test_lib_"), "test_lib");
}

#[test]
fn test_normalize_idempotent_on_samples() {
    let samples = [
        "My-Code Lib",
        "__MyLib__",
        "lib123",
        "---",
        "",
        "a.b.c",
        "_x_ y_",
    ];
    for s in samples {
        let once = normalize_library_name(s);
        let twice = normalize_library_name(&once);
        assert_eq!(once, twice);
    }
}

#[test]
fn test_normalize_all_specials_yields_empty() {
    assert_eq!(normalize_library_name("---"), "");
    assert_eq!(normalize_library_name("___"), "");
}
