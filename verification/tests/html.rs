use rb_tree::html::html_list;

#[test]
fn html_test() {
    let result = "<ul><li>1</li><li>2</li></ul>".to_string();
    let list1 = html_list(&[1, 2]);
    let list2 = html_list(&[1, 2]);
    assert_eq!(list1, result);
    assert_eq!(list2, result);
}

#[test]
fn html_list_of_nothing() {
    assert_eq!(html_list(&[]), "<ul></ul>".to_string());
}

#[test]
fn html_list_signs_and_sizes() {
    assert_eq!(
        html_list(&[0, -7, 120, i64::MIN, i64::MAX]),
        "<ul><li>0</li><li>-7</li><li>120</li><li>-9223372036854775808</li><li>9223372036854775807</li></ul>"
            .to_string()
    );
}
