use ingress_intel_rs::cookies::CookieJar;

#[test]
fn empty_jar() {
    let jar = CookieJar::new();
    assert!(!jar.cookie_exists("csrftoken"));
    assert_eq!(jar.header_value(), "");
}

#[test]
fn add_and_find() {
    let mut jar = CookieJar::new();
    jar.add_cookie("csrftoken".to_owned(), "abc".to_owned());
    jar.add_cookie("sessionid".to_owned(), "xyz".to_owned());
    assert!(jar.cookie_exists("csrftoken"));
    assert!(jar.cookie_exists("sessionid"));
    assert!(!jar.cookie_exists("c_user"));
    assert_eq!(jar.header_value(), "csrftoken=abc; sessionid=xyz");
}

#[test]
fn replace_keeps_one_entry() {
    let mut jar = CookieJar::new();
    jar.add_cookie("csrftoken".to_owned(), "old".to_owned());
    jar.add_cookie("csrftoken".to_owned(), "new".to_owned());
    assert_eq!(jar.header_value(), "csrftoken=new");
}

#[test]
fn header_order_follows_insertion() {
    let mut jar = CookieJar::new();
    jar.add_cookie("b".to_owned(), "2".to_owned());
    jar.add_cookie("a".to_owned(), "1".to_owned());
    jar.add_cookie("b".to_owned(), "3".to_owned());
    assert_eq!(jar.header_value(), "b=3; a=1");
}
