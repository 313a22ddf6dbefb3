use trigram_rs::{extract_all_trigrams, extract_trigrams, DocID, Index, T};

fn corpus() -> Index {
    let docs = vec!["foo", "foobar", "foobfoo", "quxzoot", "zotzot", "azotfoba"];
    Index::new_with_documents(docs)
}

fn ids(v: &[i32]) -> Vec<DocID> {
    v.iter().map(|&i| DocID(i)).collect()
}

fn tri(s: &str) -> T {
    let b = s.as_bytes();
    T((b[0] as u32) << 16 | (b[1] as u32) << 8 | b[2] as u32)
}

#[test]
fn test_query() {
    let docs = vec!["foo", "foobar", "foobfoo", "quxzoot", "zotzot", "azotfoba"];

    let mut idx = Index::new_with_documents(docs);

    let got = idx.query("");
    assert_eq!(
        got,
        vec![DocID(0), DocID(1), DocID(2), DocID(3), DocID(4), DocID(5)]
    );

    let got = idx.query("foo");
    assert_eq!(got, vec![DocID(0), DocID(1), DocID(2)]);
    let got = idx.query("foob");
    assert_eq!(got, vec![DocID(1), DocID(2)]);
    let got = idx.query("zot");
    assert_eq!(got, vec![DocID(4), DocID(5)]);
    let got = idx.query("oba");
    assert_eq!(got, vec![DocID(1), DocID(5)]);

    idx.add("quxlzot"); // 6
    idx.add("zottlequx"); // 7
    idx.add("bazlefob"); // 8

    let got = idx.query("zottle");
    assert_eq!(got, vec![DocID(7)]);
}

#[test]
fn extract_packs_bytes_big_endian() {
    assert_eq!(extract_trigrams("abc"), vec![T(0x616263)]);
    assert_eq!(T(0x616263).bytes(), (b'a', b'b', b'c'));
}

#[test]
fn extract_short_strings_give_nothing() {
    assert_eq!(extract_trigrams(""), Vec::<T>::new());
    assert_eq!(extract_trigrams("ab"), Vec::<T>::new());
    let mut ts = vec![T(7)];
    extract_all_trigrams("ab", &mut ts);
    assert_eq!(ts, vec![T(7)]);
}

#[test]
fn extract_unique_keeps_first_occurrence_order() {
    assert_eq!(
        extract_trigrams("foobfoo"),
        vec![tri("foo"), tri("oob"), tri("obf"), tri("bfo")]
    );
    assert_eq!(extract_trigrams("aaaaa"), vec![tri("aaa")]);
}

#[test]
fn extract_all_keeps_duplicates_and_appends() {
    let mut ts = vec![T(1)];
    extract_all_trigrams("zotzot", &mut ts);
    assert_eq!(
        ts,
        vec![T(1), tri("zot"), tri("otz"), tri("tzo"), tri("zot")]
    );
}

#[test]
fn short_query_returns_all_documents() {
    let idx = corpus();
    assert_eq!(idx.query("ab"), ids(&[0, 1, 2, 3, 4, 5]));
    assert_eq!(idx.query("z"), ids(&[0, 1, 2, 3, 4, 5]));
}

#[test]
fn absent_trigram_gives_empty_result() {
    let idx = corpus();
    assert_eq!(idx.query("xyz"), Vec::<DocID>::new());
    assert_eq!(idx.query("foobarxyz"), Vec::<DocID>::new());
    assert_eq!(idx.query_trigrams(vec![tri("foo"), tri("qqq")]), Vec::<DocID>::new());
}

#[test]
fn query_trigrams_intersects_all_lists() {
    let idx = corpus();
    assert_eq!(idx.query_trigrams(vec![tri("foo"), tri("oob")]), ids(&[1, 2]));
    assert_eq!(idx.query_trigrams(vec![tri("zot"), tri("oba")]), ids(&[5]));
    assert_eq!(idx.query_trigrams(vec![tri("foo"), tri("zot")]), Vec::<DocID>::new());
    assert_eq!(idx.query_trigrams(Vec::new()), ids(&[0, 1, 2, 3, 4, 5]));
}

#[test]
fn query_result_is_sound_for_substrings() {
    let docs = vec!["foo", "foobar", "foobfoo", "quxzoot", "zotzot", "azotfoba"];
    let idx = Index::new_with_documents(docs.clone());
    for q in ["foo", "oob", "zotf", "bar", "otz"] {
        for d in idx.query(q) {
            let text = docs[d.as_usize()];
            for t in extract_trigrams(q) {
                assert!(extract_trigrams(text).contains(&t));
            }
        }
        for (i, text) in docs.iter().enumerate() {
            if text.contains(q) {
                assert!(idx.query(q).contains(&DocID(i as i32)));
            }
        }
    }
}

#[test]
fn filter_narrows_given_documents() {
    let idx = corpus();
    let all = ids(&[0, 1, 2, 3, 4, 5]);
    assert_eq!(idx.filter(&all, vec![tri("foo")]), ids(&[0, 1, 2]));
    assert_eq!(idx.filter(&ids(&[0, 2, 5]), vec![tri("foo"), tri("bfo")]), ids(&[2]));
    assert_eq!(idx.filter(&ids(&[0, 2, 5]), Vec::new()), ids(&[0, 2, 5]));
    assert_eq!(idx.filter(&all, vec![tri("qqq")]), Vec::<DocID>::new());
    assert_eq!(idx.filter(&Vec::new(), vec![tri("foo")]), Vec::<DocID>::new());
}

#[test]
fn filter_skips_pruned_trigrams() {
    let mut idx = corpus();
    assert_eq!(idx.prune(2), 1);
    let some = ids(&[0, 3, 4]);
    assert_eq!(idx.filter(&some, vec![tri("foo")]), ids(&[0, 3, 4]));
    assert_eq!(idx.filter(&some, vec![tri("foo"), tri("zot")]), ids(&[4]));
}

#[test]
fn prune_counts_lists_over_the_bound() {
    let mut idx = corpus();
    assert_eq!(idx.prune(2), 1);
    assert_eq!(idx.prune(1), 3);
    assert_eq!(idx.prune(0), 14);
}

#[test]
fn prune_keeps_list_of_exactly_the_bound() {
    let mut idx = corpus();
    assert_eq!(idx.prune(3), 0);
    assert_eq!(idx.query("foo"), ids(&[0, 1, 2]));
}

#[test]
fn prune_twice_prunes_nothing_more() {
    let mut idx = corpus();
    assert_eq!(idx.prune(1), 4);
    assert_eq!(idx.prune(1), 0);
}

#[test]
fn pruned_trigram_gives_all_documents() {
    let mut idx = corpus();
    idx.prune(2);
    assert_eq!(idx.query("foo"), ids(&[0, 1, 2, 3, 4, 5]));
    assert_eq!(idx.query("foob"), ids(&[1, 2]));
}

#[test]
fn prune_only_widens_results() {
    let mut idx = corpus();
    let queries = ["foo", "foob", "zot", "oba", "zotfo", "xyz", "ab"];
    let before: Vec<Vec<DocID>> = queries.iter().map(|q| idx.query(q)).collect();
    idx.prune(1);
    for (q, b) in queries.iter().zip(before.iter()) {
        let after = idx.query(q);
        for d in b {
            assert!(after.contains(d));
        }
    }
    assert_eq!(idx.query("foob"), ids(&[0, 1, 2, 3, 4, 5]));
}

#[test]
fn add_after_prune_does_not_refill_pruned_list() {
    let mut idx = corpus();
    idx.prune(2);
    assert_eq!(idx.add("foo"), DocID(6));
    assert_eq!(idx.query("foo"), ids(&[0, 1, 2, 3, 4, 5, 6]));
    assert_eq!(idx.prune(2), 0);
}

#[test]
fn add_assigns_sequential_ids() {
    let mut idx = Index::new_with_documents(Vec::new());
    assert_eq!(idx.query(""), Vec::<DocID>::new());
    assert_eq!(idx.add("hello"), DocID(0));
    assert_eq!(idx.add("world"), DocID(1));
    idx.prune(1);
    assert_eq!(idx.add_trigrams(&vec![tri("abc")]), DocID(2));
    assert_eq!(idx.query(""), ids(&[0, 1, 2]));
    assert_eq!(idx.query("abc"), ids(&[2]));
    assert_eq!(idx.query("llo"), ids(&[0]));
}

#[test]
fn insert_with_chosen_ids() {
    let mut idx = Index::new_with_documents(vec!["abc"]);
    idx.insert("xabc", DocID(5));
    idx.insert_trigrams(&vec![tri("abc"), tri("abc")], DocID(9));
    assert_eq!(idx.query(""), ids(&[0, 5, 9]));
    assert_eq!(idx.query("abc"), ids(&[0, 5, 9]));
    assert_eq!(idx.query("xab"), ids(&[5]));
}

#[test]
fn repeated_trigram_in_document_listed_once() {
    let idx = Index::new_with_documents(vec!["zotzot", "zot"]);
    assert_eq!(idx.query("zot"), ids(&[0, 1]));
    assert_eq!(idx.query("zotzot"), ids(&[0]));
}

#[test]
fn bytes_not_characters() {
    let idx = Index::new_with_documents(vec!["é-x", "ab"]);
    assert_eq!(extract_trigrams("é-"), vec![T(0xC3A92D)]);
    assert_eq!(idx.query("é-"), ids(&[0]));
}
