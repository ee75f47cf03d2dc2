use name_toolchain_map::order::{compare, Order};
use name_toolchain_map::{parse_filename, Naming};

fn naming(prefix: &str, suffix: &str) -> Naming {
    Naming { prefix: prefix.to_string(), suffix: suffix.to_string() }
}

fn parsed(file_name: &str, prefix: &str, suffix: &str) -> Option<(String, String)> {
    parse_filename(file_name, &naming(prefix, suffix))
}

fn pair(name: &str, toolchain: &str) -> Option<(String, String)> {
    Some((name.to_string(), toolchain.to_string()))
}

#[test]
fn parses_a_shared_object_name() {
    assert_eq!(
        parsed("libmylint@nightly-2024-01-01-x86_64-unknown-linux-gnu.so", "lib", ".so"),
        pair("mylint", "nightly-2024-01-01-x86_64-unknown-linux-gnu")
    );
}

#[test]
fn parses_with_an_empty_prefix() {
    assert_eq!(parsed("mylint@toolchain-1.lib", "", ".lib"), pair("mylint", "toolchain-1"));
}

#[test]
fn parses_with_an_empty_suffix() {
    assert_eq!(parsed("libmylint@tc", "lib", ""), pair("mylint", "tc"));
}

#[test]
fn a_file_name_without_delimiter_does_not_parse() {
    assert_eq!(parsed("notes.txt", "", ".lib"), None);
    assert_eq!(parsed("libmylint.so", "lib", ".so"), None);
}

#[test]
fn a_file_name_without_the_prefix_does_not_parse() {
    assert_eq!(parsed("mylint@tc.so", "lib", ".so"), None);
}

#[test]
fn a_file_name_without_the_suffix_does_not_parse() {
    assert_eq!(parsed("libmylint@tc.dll", "lib", ".so"), None);
    assert_eq!(parsed("libmylint@tc.so.bak", "lib", ".so"), None);
}

#[test]
fn prefix_and_suffix_do_not_share_characters() {
    assert_eq!(parsed("abc", "ab", "bc"), None);
    assert_eq!(parsed("so", "lib", ".so"), None);
    assert_eq!(parsed("", "lib", ".so"), None);
}

#[test]
fn the_delimiter_in_prefix_or_suffix_does_not_count() {
    assert_eq!(parsed("@x@", "@", "@"), None);
    assert_eq!(parsed("@a@b@", "@", "@"), pair("a", "b"));
}

#[test]
fn the_name_ends_at_the_first_delimiter() {
    assert_eq!(parsed("liba@b@c.so", "lib", ".so"), pair("a", "b@c"));
}

#[test]
fn name_and_toolchain_may_be_empty() {
    assert_eq!(parsed("lib@.so", "lib", ".so"), pair("", ""));
    assert_eq!(parsed("@", "", ""), pair("", ""));
    assert_eq!(parsed("libx@.so", "lib", ".so"), pair("x", ""));
    assert_eq!(parsed("lib@y.so", "lib", ".so"), pair("", "y"));
}

#[test]
fn characters_outside_ascii_are_counted_as_characters() {
    assert_eq!(parsed("префикс-имя@züge.so", "префикс-", ".so"), pair("имя", "züge"));
    assert_eq!(parsed("é@ü", "", ""), pair("é", "ü"));
}

#[test]
fn compare_orders_by_the_first_difference() {
    assert_eq!(compare("abc", "abd"), Order::Less);
    assert_eq!(compare("abd", "abc"), Order::Greater);
    assert_eq!(compare("b", "abc"), Order::Greater);
    assert_eq!(compare("abc", "abc"), Order::Equal);
}

#[test]
fn compare_puts_a_proper_prefix_first() {
    assert_eq!(compare("", ""), Order::Equal);
    assert_eq!(compare("", "a"), Order::Less);
    assert_eq!(compare("a", ""), Order::Greater);
    assert_eq!(compare("ab", "abc"), Order::Less);
    assert_eq!(compare("abc", "ab"), Order::Greater);
}

#[test]
fn compare_goes_by_code_point() {
    assert_eq!(compare("Z", "a"), Order::Less);
    assert_eq!(compare("z", "é"), Order::Less);
    assert_eq!(compare("é", "\u{10000}"), Order::Less);
    assert_eq!(compare("\u{ffff}", "\u{10000}"), Order::Less);
    assert_eq!(compare("-", "@"), Order::Less);
}

#[test]
fn compare_agrees_with_the_order_of_strings() {
    let words = ["", "a", "ab", "b", "lib", "lib@", "mylint", "é", "zz", "Z", "@", "a@b", "a@"];
    for a in words {
        for b in words {
            let expected = match a.cmp(b) {
                std::cmp::Ordering::Less => Order::Less,
                std::cmp::Ordering::Equal => Order::Equal,
                std::cmp::Ordering::Greater => Order::Greater,
            };
            assert_eq!(compare(a, b), expected);
        }
    }
}
