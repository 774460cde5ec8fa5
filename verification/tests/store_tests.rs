use domain_searcher::store::{extract_tld, DomainStore};

#[test]
fn tld_extraction() {
    assert_eq!(extract_tld("abc.io"), Some("io".to_string()));
    assert_eq!(extract_tld("a.b.io"), Some("io".to_string()));
    assert_eq!(extract_tld("abc"), None);
    assert_eq!(extract_tld(".io"), None);
    assert_eq!(extract_tld("abc."), None);
}

#[test]
fn add_groups_by_tld_in_append_order() {
    let mut st = DomainStore::new();
    st.add("a.io");
    st.add("b.dev");
    st.add("c.io");
    assert_eq!(st.list("io"), vec!["a.io", "c.io"]);
    assert_eq!(st.list("dev"), vec!["b.dev"]);
    assert_eq!(st.list("net"), Vec::<String>::new());
}

#[test]
fn list_normalizes_its_argument() {
    let mut st = DomainStore::new();
    st.add("a.io");
    assert_eq!(st.list(" IO "), vec!["a.io"]);
    assert_eq!(st.list(""), Vec::<String>::new());
}

#[test]
fn round_trip_multiset() {
    let mut st = DomainStore::new();
    st.reset();
    let added = ["a.io", "b.dev", "c.io", "a.io"];
    for d in added {
        st.add(d);
    }
    let mut all = st.list_all();
    all.sort();
    let mut expect: Vec<String> = added.iter().map(|d| d.to_string()).collect();
    expect.sort();
    assert_eq!(all, expect);
}

#[test]
fn malformed_domains_are_dropped() {
    let mut st = DomainStore::new();
    st.add("nodot");
    st.add(".io");
    st.add("end.");
    assert_eq!(st.list_all(), Vec::<String>::new());
}

#[test]
fn reset_clears_everything() {
    let mut st = DomainStore::new();
    st.add("a.io");
    st.add("b.dev");
    st.reset();
    assert_eq!(st.list_all(), Vec::<String>::new());
    assert_eq!(st.list("io"), Vec::<String>::new());
    assert_eq!(st.approx_bytes(), 0);
}

#[test]
fn approx_bytes_counts_rows_and_newlines() {
    let mut st = DomainStore::new();
    st.add("a.io");
    st.add("bb.io");
    assert_eq!(st.approx_bytes(), 4 + 1 + 5 + 1);
}
