use nested_code_parser::IniCategory;
use nested_code_parser::IniCore;
use nested_code_parser::IniVariable;

#[test]
fn test_from_contents_valid() {
    let contents: &str = "[Category1]\nkey1=value1\nkey2=value2\n\n[Category2]\nkey3=value3\n";
    let ini: IniCore = IniCore::from_contents(contents).unwrap();

    println!("{:?}", ini.categories().iter().map(|c| &c.name).collect::<Vec<&String>>());
    assert_eq!(ini.categories().len(), 2);
    assert_eq!(ini.category("Category1").unwrap().data.len(), 2);
    assert_eq!(ini.category("Category1").unwrap().variable("key1").unwrap().value, "value1");
    assert_eq!(ini.category("Category2").unwrap().variable("key3").unwrap().value, "value3");
}

#[test]
fn test_to_string_encoded_values() {
    let contents: &str = "[Category1]\nkey1=value1\nkey2=value2\n";
    let ini: IniCore = IniCore::from_contents(contents).unwrap();
    let encoded: String = ini.to_string_encoded_values();

    let expected: &str = "[Category1]\nkey1=value1\nkey2=value2";
    assert_eq!(encoded, expected);
}

#[test]
fn test_empty_file() {
    let contents: &str = "";
    let ini: IniCore = IniCore::from_contents(contents).unwrap();

    assert_eq!(ini.categories().len(), 0);
}

#[test]
fn test_invalid_line() {
    let contents: &str = "Invalid line here";
    let ini: Result<IniCore, nested_code_parser::IniError> = IniCore::from_contents(contents);

    assert!(ini.is_err());
}

#[test]
fn test_malformed_category() {
    let contents: &str = "[Category1\nkey=value\n";
    let ini: Result<IniCore, nested_code_parser::IniError> = IniCore::from_contents(contents);

    assert!(ini.is_err());
}

#[test]
fn test_category_without_variables() {
    let contents: &str = "[Category1]\n[Category2]\nkey=value\n";
    let ini: IniCore = IniCore::from_contents(contents).unwrap();

    assert_eq!(ini.category("Category1").unwrap().data.len(), 0);
    assert_eq!(ini.category("Category2").unwrap().variable("key").unwrap().value, "value");
}

#[test]
fn test_missing_variable() {
    let contents: &str = "[Missing]\n";
    let ini: IniCore = IniCore::from_contents(contents).unwrap();

    assert!(ini.category("Missing").unwrap().variable("key").is_none());
}

#[test]
fn test_variable_and_category_parts() {
    let variable: IniVariable = IniVariable::new("key", "value");
    assert_eq!(variable.to_text(), "key=value");
    assert!(variable.is_ok());

    let category: IniCategory = IniCategory::new("Section");
    assert!(category.is_ok());
    assert_eq!(category.to_text(), "[Section]");
}

#[test]
fn test_values_keep_spaces_around_equals() {
    let contents: &str = "[S]\n  key  = value \n";
    let ini: IniCore = IniCore::from_contents(contents).unwrap();
    let variable = ini.category("S").unwrap().variable("key").unwrap().clone();
    assert_eq!(variable.value, " value");
}
