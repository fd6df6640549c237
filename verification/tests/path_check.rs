//! The index check on JSONPath expressions.
use cassettedb::path_check::index_safe;

#[test]
fn plain_paths_pass_the_index_check() {
    for p in ["$", "$.name", "$..x", "$[*]", "$['a','b']", "$[0]", "$[0, 1 ,2]", "$[-2:]", "$[:3]", "$[1:5:2]", "$[?(@.a > -1)]", "not a path ["] {
        assert!(index_safe(p), "{}", p);
    }
    // Up to i64::MAX the index fits.
    assert!(index_safe("$[999999999999999999]"));
    assert!(index_safe("$[1,999999999999999999]"));
    assert!(index_safe("$[9223372036854775807]"));
    assert!(index_safe("$[0,9223372036854775807]"));
    assert!(index_safe("$[1234567890123456789]"));
    // Inside a quoted key the text is not an index.
    assert!(index_safe("$['a[-1,0]']"));
    assert!(index_safe("$[\"b[0:1:0]\"]"));
    assert!(index_safe("$['it\\'s [-1,0]']"));
}

#[test]
fn unsupported_indexes_fail_the_index_check() {
    for p in [
        "$[-1,0]",
        "$[0,-1]",
        "$.a[ 1 , 2.5 ]",
        "$[1e3,2]",
        "$[0:4:0]",
        "$[ : : 0 ]",
        "$[12345678901234567890]",
        "$[1,12345678901234567890]",
        "$[?(@.x[-1,0])]",
        "$[-1,0",
        "$[9223372036854775808]",
        "$[0,9300000000000000000]",
        "$['a'][-1,0]",
    ] {
        assert!(!index_safe(p), "{}", p);
    }
}
