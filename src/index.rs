//! The inverted index, the partial index of one worker, and the merge of
//! the one into the other.
use vstd::prelude::*;
use crate::error::IndexError;
use crate::partition::{
    lemma_ranges_cover, lemma_worker_of_line, line_ranges, range_end, range_start, worker_count,
};
use crate::text::{
    decimal, decimal_of, document_lines, key_of, lines_of, normalize, split_words, words_of,
};
use vstd::string::StringExecFns;

verus! {

/// Entries of an index as plain values: a key and the documents listed
/// under it.
pub type EntryView = (Seq<char>, Seq<Seq<char>>);

/// The plain values of a list of entries.
pub open spec fn entry_views(v: Seq<(String, Vec<String>)>) -> Seq<EntryView> {
    v.map_values(|e: (String, Vec<String>)| (e.0@, e.1@.map_values(|d: String| d@)))
}

/// The mapping that a list of entries stands for: each key that occurs to
/// every document listed under it anywhere in the list.
pub open spec fn postings_map(e: Seq<EntryView>) -> Map<Seq<char>, Set<Seq<char>>> {
    Map::new(
        |k: Seq<char>| exists|i: int| 0 <= i < e.len() && e[i].0 == k,
        |k: Seq<char>|
            Set::new(|d: Seq<char>| exists|i: int| 0 <= i < e.len() && e[i].0 == k && e[i].1.contains(d)),
    )
}

/// No key occurs twice in the list.
pub open spec fn distinct_keys(e: Seq<EntryView>) -> bool {
    forall|i: int, j: int| 0 <= i < j < e.len() ==> e[i].0 != e[j].0
}

/// The documents of key `k` in `m`, none if `k` is absent.
pub open spec fn postings_in(m: Map<Seq<char>, Set<Seq<char>>>, k: Seq<char>) -> Set<Seq<char>> {
    if m.contains_key(k) {
        m[k]
    } else {
        Set::empty()
    }
}

/// Two mappings merged: every key of either, with the union of its
/// documents in both.
pub open spec fn union_of(
    a: Map<Seq<char>, Set<Seq<char>>>,
    b: Map<Seq<char>, Set<Seq<char>>>,
) -> Map<Seq<char>, Set<Seq<char>>> {
    Map::new(
        |k: Seq<char>| a.contains_key(k) || b.contains_key(k),
        |k: Seq<char>| postings_in(a, k).union(postings_in(b, k)),
    )
}

proof fn lemma_entry(e: Seq<EntryView>, i: int)
    requires
        distinct_keys(e),
        0 <= i < e.len(),
    ensures
        postings_map(e).contains_key(e[i].0),
        postings_map(e)[e[i].0] == e[i].1.to_set(),
{
    let m = postings_map(e);
    assert(m.contains_key(e[i].0));
    assert forall|d: Seq<char>| m[e[i].0].contains(d) <==> e[i].1.to_set().contains(d) by {
        if m[e[i].0].contains(d) {
            let j = choose|j: int| 0 <= j < e.len() && e[j].0 == e[i].0 && e[j].1.contains(d);
            assert(j == i);
        }
        if e[i].1.to_set().contains(d) {
            assert(e[i].1.contains(d));
        }
    }
    assert(m[e[i].0] =~= e[i].1.to_set());
}

proof fn lemma_update_entry(e: Seq<EntryView>, i: int, docs: Seq<Seq<char>>)
    requires
        distinct_keys(e),
        0 <= i < e.len(),
    ensures
        distinct_keys(e.update(i, (e[i].0, docs))),
        postings_map(e.update(i, (e[i].0, docs))) == postings_map(e).insert(e[i].0, docs.to_set()),
{
    let k = e[i].0;
    let f = e.update(i, (k, docs));
    let a = postings_map(e);
    let b = postings_map(f);
    let c = a.insert(k, docs.to_set());
    assert(distinct_keys(f)) by {
        assert forall|p: int, q: int| 0 <= p < q < f.len() implies f[p].0 != f[q].0 by {
            assert(f[p].0 == e[p].0 && f[q].0 == e[q].0);
        }
    }
    lemma_entry(f, i);
    assert forall|x: Seq<char>| b.contains_key(x) <==> c.contains_key(x) by {
        if b.contains_key(x) && x != k {
            let j = choose|j: int| 0 <= j < f.len() && f[j].0 == x;
            assert(e[j].0 == x);
        }
        if c.contains_key(x) && x != k {
            let j = choose|j: int| 0 <= j < e.len() && e[j].0 == x;
            assert(f[j].0 == x);
        }
    }
    assert forall|x: Seq<char>| b.contains_key(x) && x != k implies b[x] == c[x] by {
        assert forall|d: Seq<char>| b[x].contains(d) <==> a[x].contains(d) by {
            if b[x].contains(d) {
                let j = choose|j: int| 0 <= j < f.len() && f[j].0 == x && f[j].1.contains(d);
                assert(j != i);
                assert(e[j].0 == x && e[j].1.contains(d));
            }
            if a[x].contains(d) {
                let j = choose|j: int| 0 <= j < e.len() && e[j].0 == x && e[j].1.contains(d);
                assert(j != i);
                assert(f[j].0 == x && f[j].1.contains(d));
            }
        }
        assert(b[x] =~= a[x]);
    }
    assert(b =~= c);
}

proof fn lemma_push_entry(e: Seq<EntryView>, x: EntryView)
    requires
        distinct_keys(e),
        !postings_map(e).contains_key(x.0),
    ensures
        distinct_keys(e.push(x)),
        postings_map(e.push(x)) == postings_map(e).insert(x.0, x.1.to_set()),
{
    let f = e.push(x);
    let a = postings_map(e);
    let b = postings_map(f);
    let c = a.insert(x.0, x.1.to_set());
    let n = e.len() as int;
    assert(distinct_keys(f)) by {
        assert forall|p: int, q: int| 0 <= p < q < f.len() implies f[p].0 != f[q].0 by {
            if q == n {
                assert(e[p].0 == f[p].0);
            }
        }
    }
    lemma_entry(f, n);
    assert(f[n] == x);
    assert forall|y: Seq<char>| b.contains_key(y) <==> c.contains_key(y) by {
        if b.contains_key(y) && y != x.0 {
            let j = choose|j: int| 0 <= j < f.len() && f[j].0 == y;
            assert(e[j].0 == y);
        }
        if c.contains_key(y) && y != x.0 {
            let j = choose|j: int| 0 <= j < e.len() && e[j].0 == y;
            assert(f[j].0 == y);
        }
    }
    assert forall|y: Seq<char>| b.contains_key(y) && y != x.0 implies b[y] == c[y] by {
        assert forall|d: Seq<char>| b[y].contains(d) <==> a[y].contains(d) by {
            if b[y].contains(d) {
                let j = choose|j: int| 0 <= j < f.len() && f[j].0 == y && f[j].1.contains(d);
                assert(e[j].0 == y && e[j].1.contains(d));
            }
            if a[y].contains(d) {
                let j = choose|j: int| 0 <= j < e.len() && e[j].0 == y && e[j].1.contains(d);
                assert(f[j].0 == y && f[j].1.contains(d));
            }
        }
        assert(b[y] =~= a[y]);
    }
    assert(b =~= c);
}

/// What one more entry adds to the mapping of a list of entries.
pub open spec fn entry_postings(x: EntryView, k: Seq<char>) -> Set<Seq<char>> {
    if k == x.0 {
        x.1.to_set()
    } else {
        Set::empty()
    }
}

proof fn lemma_postings_map_push(e: Seq<EntryView>, x: EntryView, k: Seq<char>)
    ensures
        postings_map(e.push(x)).contains_key(k) == (postings_map(e).contains_key(k) || k == x.0),
        postings_in(postings_map(e.push(x)), k) == postings_in(postings_map(e), k).union(
            entry_postings(x, k),
        ),
{
    let f = e.push(x);
    let n = e.len() as int;
    if postings_map(e).contains_key(k) {
        let i = choose|i: int| 0 <= i < e.len() && e[i].0 == k;
        assert(f[i].0 == k);
    }
    if k == x.0 {
        assert(f[n].0 == k);
    }
    if postings_map(f).contains_key(k) && k != x.0 {
        let i = choose|i: int| 0 <= i < f.len() && f[i].0 == k;
        assert(e[i].0 == k);
    }
    let lhs = postings_in(postings_map(f), k);
    let rhs = postings_in(postings_map(e), k).union(entry_postings(x, k));
    assert forall|d: Seq<char>| lhs.contains(d) <==> rhs.contains(d) by {
        if lhs.contains(d) {
            let i = choose|i: int| 0 <= i < f.len() && f[i].0 == k && f[i].1.contains(d);
            if i < n {
                assert(e[i].0 == k && e[i].1.contains(d));
            } else {
                assert(x.1.contains(d));
            }
        }
        if postings_in(postings_map(e), k).contains(d) {
            let i = choose|i: int| 0 <= i < e.len() && e[i].0 == k && e[i].1.contains(d);
            assert(f[i].0 == k && f[i].1.contains(d));
        }
        if entry_postings(x, k).contains(d) {
            assert(f[n].0 == k && f[n].1.contains(d));
        }
    }
    assert(lhs =~= rhs);
}

proof fn lemma_merge_step(
    a: Map<Seq<char>, Set<Seq<char>>>,
    cur: Map<Seq<char>, Set<Seq<char>>>,
    p: Seq<EntryView>,
    j: int,
)
    requires
        0 <= j < p.len(),
        cur == union_of(a, postings_map(p.take(j))),
    ensures
        cur.insert(p[j].0, postings_in(cur, p[j].0).union(p[j].1.to_set())) == union_of(
            a,
            postings_map(p.take(j + 1)),
        ),
{
    let x = p[j];
    assert(p.take(j + 1) =~= p.take(j).push(x));
    let lhs = cur.insert(x.0, postings_in(cur, x.0).union(x.1.to_set()));
    let rhs = union_of(a, postings_map(p.take(j + 1)));
    assert forall|k: Seq<char>| lhs.contains_key(k) <==> rhs.contains_key(k) by {
        lemma_postings_map_push(p.take(j), x, k);
    }
    assert forall|k: Seq<char>| lhs.contains_key(k) implies lhs[k] == rhs[k] by {
        lemma_postings_map_push(p.take(j), x, k);
        if k == x.0 {
            assert(lhs[k] =~= rhs[k]);
        } else {
            assert(lhs[k] =~= rhs[k]);
        }
    }
    assert(lhs =~= rhs);
}

proof fn lemma_take_push_to_set(s: Seq<Seq<char>>, m: int)
    requires
        0 <= m < s.len(),
    ensures
        s.take(m + 1).to_set() == s.take(m).to_set().insert(s[m]),
{
    assert(s.take(m + 1) =~= s.take(m).push(s[m]));
    let t = s.take(m + 1);
    assert forall|x: Seq<char>| t.contains(x) <==> s.take(m).contains(x) || x == s[m] by {
        if t.contains(x) {
            let i = choose|i: int| 0 <= i < t.len() && t[i] == x;
            if i < m {
                assert(s.take(m)[i] == x);
            }
        }
        if s.take(m).contains(x) {
            let i = choose|i: int| 0 <= i < m && s.take(m)[i] == x;
            assert(t[i] == x);
        }
        if x == s[m] {
            assert(t[m] == x);
        }
    }
    assert(t.to_set() =~= s.take(m).to_set().insert(s[m]));
}

/// The plain values of a list of lines.
pub open spec fn line_views(lines: Seq<&str>) -> Seq<Seq<char>> {
    lines.map_values(|l: &str| l@)
}

/// The keys of the words in `words`.
pub open spec fn word_keys(words: Seq<Seq<char>>) -> Set<Seq<char>> {
    Set::new(|k: Seq<char>| exists|j: int| 0 <= j < words.len() && k == key_of(words[j]))
}

/// The keys of all the words on the lines.
pub open spec fn line_keys(lines: Seq<Seq<char>>) -> Set<Seq<char>> {
    Set::new(
        |k: Seq<char>|
            exists|i: int| 0 <= i < lines.len() && #[trigger] word_keys(words_of(lines[i])).contains(k),
    )
}

/// The mapping that lists the document `doc` under each of `keys`.
pub open spec fn keys_to_document(keys: Set<Seq<char>>, doc: Seq<char>) -> Map<
    Seq<char>,
    Set<Seq<char>>,
> {
    Map::new(|k: Seq<char>| keys.contains(k), |k: Seq<char>| set![doc])
}

/// The mapping `m` after the document `doc` was listed under each of `keys`.
pub open spec fn with_document(
    m: Map<Seq<char>, Set<Seq<char>>>,
    doc: Seq<char>,
    keys: Set<Seq<char>>,
) -> Map<Seq<char>, Set<Seq<char>>> {
    union_of(m, keys_to_document(keys, doc))
}

proof fn lemma_word_keys_step(words: Seq<Seq<char>>, j: int)
    requires
        0 <= j < words.len(),
    ensures
        word_keys(words.take(j + 1)) == word_keys(words.take(j)).insert(key_of(words[j])),
{
    let a = word_keys(words.take(j + 1));
    let b = word_keys(words.take(j)).insert(key_of(words[j]));
    assert forall|k: Seq<char>| a.contains(k) <==> b.contains(k) by {
        if a.contains(k) {
            let t = choose|t: int| 0 <= t < j + 1 && k == key_of(#[trigger] words.take(j + 1)[t]);
            if t < j {
                assert(k == key_of(words.take(j)[t]));
            }
        }
        if word_keys(words.take(j)).contains(k) {
            let t = choose|t: int| 0 <= t < j && k == key_of(#[trigger] words.take(j)[t]);
            assert(k == key_of(words.take(j + 1)[t]));
        }
        if k == key_of(words[j]) {
            assert(k == key_of(words.take(j + 1)[j]));
        }
    }
    assert(a =~= b);
}

proof fn lemma_line_keys_step(lines: Seq<Seq<char>>, i: int)
    requires
        0 <= i < lines.len(),
    ensures
        line_keys(lines.take(i + 1)) == line_keys(lines.take(i)).union(word_keys(words_of(lines[i]))),
{
    let a = line_keys(lines.take(i + 1));
    let b = line_keys(lines.take(i)).union(word_keys(words_of(lines[i])));
    assert forall|k: Seq<char>| a.contains(k) <==> b.contains(k) by {
        if a.contains(k) {
            let t = choose|t: int|
                0 <= t < i + 1 && #[trigger] word_keys(words_of(lines.take(i + 1)[t])).contains(k);
            if t < i {
                assert(word_keys(words_of(lines.take(i)[t])).contains(k));
            }
        }
        if line_keys(lines.take(i)).contains(k) {
            let t = choose|t: int|
                0 <= t < i && #[trigger] word_keys(words_of(lines.take(i)[t])).contains(k);
            assert(word_keys(words_of(lines.take(i + 1)[t])).contains(k));
        }
        if word_keys(words_of(lines[i])).contains(k) {
            assert(word_keys(words_of(lines.take(i + 1)[i])).contains(k));
        }
    }
    assert(a =~= b);
}

/// The keys of the lines that worker `w` gets.
pub open spec fn worker_keys(lines: Seq<Seq<char>>, threads: nat, w: nat) -> Set<Seq<char>> {
    line_keys(
        lines.subrange(
            range_start(lines.len(), threads, w) as int,
            range_end(lines.len(), threads, w) as int,
        ),
    )
}

/// The keys that the first `w` workers collect.
pub open spec fn keys_of_workers(lines: Seq<Seq<char>>, threads: nat, w: nat) -> Set<Seq<char>> {
    Set::new(|k: Seq<char>| exists|v: nat| v < w && #[trigger] worker_keys(lines, threads, v).contains(k))
}

/// The keys that all the workers collect together.
pub open spec fn partition_keys(lines: Seq<Seq<char>>, threads: nat) -> Set<Seq<char>> {
    keys_of_workers(lines, threads, worker_count(lines.len(), threads))
}

/// The keys of every word of a document's text.
pub open spec fn document_keys(content: Seq<char>) -> Set<Seq<char>> {
    line_keys(lines_of(content))
}

proof fn lemma_keys_of_workers_step(lines: Seq<Seq<char>>, threads: nat, w: nat)
    ensures
        keys_of_workers(lines, threads, w + 1) == keys_of_workers(lines, threads, w).union(
            worker_keys(lines, threads, w),
        ),
{
    let a = keys_of_workers(lines, threads, w + 1);
    let b = keys_of_workers(lines, threads, w).union(worker_keys(lines, threads, w));
    assert forall|k: Seq<char>| a.contains(k) <==> b.contains(k) by {
        if a.contains(k) {
            let v = choose|v: nat| v < w + 1 && #[trigger] worker_keys(lines, threads, v).contains(k);
            if v < w {
                assert(keys_of_workers(lines, threads, w).contains(k));
            }
        }
        if keys_of_workers(lines, threads, w).contains(k) {
            let v = choose|v: nat| v < w && #[trigger] worker_keys(lines, threads, v).contains(k);
            assert(v < w + 1);
        }
    }
    assert(a =~= b);
}

proof fn lemma_add_keys(
    m: Map<Seq<char>, Set<Seq<char>>>,
    doc: Seq<char>,
    a: Set<Seq<char>>,
    b: Set<Seq<char>>,
)
    ensures
        union_of(with_document(m, doc, a), keys_to_document(b, doc)) == with_document(
            m,
            doc,
            a.union(b),
        ),
{
    let lhs = union_of(with_document(m, doc, a), keys_to_document(b, doc));
    let rhs = with_document(m, doc, a.union(b));
    assert forall|k: Seq<char>| lhs.contains_key(k) implies lhs[k] == rhs[k] by {
        assert(lhs[k] =~= rhs[k]);
    }
    assert(lhs =~= rhs);
}

/// The workers together collect exactly the keys of all the lines, for
/// any positive number of workers asked for.
pub proof fn lemma_partition_covers(lines: Seq<Seq<char>>, threads: nat)
    requires
        threads > 0,
    ensures
        partition_keys(lines, threads) == line_keys(lines),
{
    let n = lines.len();
    lemma_ranges_cover(n, threads);
    let a = partition_keys(lines, threads);
    let b = line_keys(lines);
    assert forall|k: Seq<char>| a.contains(k) <==> b.contains(k) by {
        if a.contains(k) {
            let v = choose|v: nat|
                v < worker_count(n, threads) && #[trigger] worker_keys(lines, threads, v).contains(k);
            let s = range_start(n, threads, v) as int;
            let e = range_end(n, threads, v) as int;
            let sub = lines.subrange(s, e);
            let i = choose|i: int| 0 <= i < sub.len() && #[trigger] word_keys(words_of(sub[i])).contains(k);
            assert(sub[i] == lines[s + i]);
            assert(word_keys(words_of(lines[s + i])).contains(k));
        }
        if b.contains(k) {
            let i = choose|i: int| 0 <= i < lines.len() && #[trigger] word_keys(words_of(lines[i])).contains(k);
            let v = lemma_worker_of_line(n, threads, i as nat);
            let s = range_start(n, threads, v) as int;
            let e = range_end(n, threads, v) as int;
            let sub = lines.subrange(s, e);
            assert(sub[i - s] == lines[i]);
            assert(word_keys(words_of(sub[i - s])).contains(k));
            assert(worker_keys(lines, threads, v).contains(k));
        }
    }
    assert(a =~= b);
}

/// The index that a document gives does not depend on the number of
/// workers: any two positive counts give the same mapping, the one with
/// the document listed under every key of its text.
pub proof fn lemma_thread_count_invariant(
    m: Map<Seq<char>, Set<Seq<char>>>,
    doc: Seq<char>,
    content: Seq<char>,
    t1: nat,
    t2: nat,
)
    requires
        t1 > 0,
        t2 > 0,
    ensures
        with_document(m, doc, partition_keys(lines_of(content), t1)) == with_document(
            m,
            doc,
            partition_keys(lines_of(content), t2),
        ),
        with_document(m, doc, partition_keys(lines_of(content), t1)) == with_document(
            m,
            doc,
            document_keys(content),
        ),
{
    lemma_partition_covers(lines_of(content), t1);
    lemma_partition_covers(lines_of(content), t2);
}

/// Two documents that share a key are both listed under it, beside the
/// documents listed there before.
pub proof fn lemma_shared_key(
    m: Map<Seq<char>, Set<Seq<char>>>,
    d1: Seq<char>,
    c1: Seq<char>,
    d2: Seq<char>,
    c2: Seq<char>,
    k: Seq<char>,
)
    requires
        document_keys(c1).contains(k),
        document_keys(c2).contains(k),
    ensures
        with_document(with_document(m, d1, document_keys(c1)), d2, document_keys(c2)).contains_key(k),
        with_document(with_document(m, d1, document_keys(c1)), d2, document_keys(c2))[k]
            == postings_in(m, k).insert(d1).insert(d2),
{
    let r = with_document(with_document(m, d1, document_keys(c1)), d2, document_keys(c2));
    assert(r[k] =~= postings_in(m, k).insert(d1).insert(d2));
}

/// Indexing the same document a second time changes nothing.
pub proof fn lemma_same_document_twice(
    m: Map<Seq<char>, Set<Seq<char>>>,
    doc: Seq<char>,
    content: Seq<char>,
)
    ensures
        with_document(with_document(m, doc, document_keys(content)), doc, document_keys(content))
            == with_document(m, doc, document_keys(content)),
{
    let once = with_document(m, doc, document_keys(content));
    let twice = with_document(once, doc, document_keys(content));
    assert forall|k: Seq<char>| twice.contains_key(k) implies twice[k] == once[k] by {
        assert(twice[k] =~= once[k]);
    }
    assert(twice =~= once);
}

/// Merging two partial results gives the same mapping in either order, so
/// the order in which workers merge does not matter.
pub proof fn lemma_merge_order(
    m: Map<Seq<char>, Set<Seq<char>>>,
    a: Map<Seq<char>, Set<Seq<char>>>,
    b: Map<Seq<char>, Set<Seq<char>>>,
)
    ensures
        union_of(union_of(m, a), b) == union_of(union_of(m, b), a),
{
    let x = union_of(union_of(m, a), b);
    let y = union_of(union_of(m, b), a);
    assert forall|k: Seq<char>| x.contains_key(k) implies x[k] == y[k] by {
        assert(x[k] =~= y[k]);
    }
    assert(x =~= y);
}

/// The position of `key` among the entries, if it is there.
fn find_key(entries: &Vec<(String, Vec<String>)>, key: &String) -> (r: Option<usize>)
    ensures
        r is Some ==> r->Some_0 < entries@.len() && entries@[r->Some_0 as int].0@ == key@,
        r is None ==> forall|i: int| 0 <= i < entries@.len() ==> entries@[i].0@ != key@,
{
    let mut i: usize = 0;
    while i < entries.len()
        invariant
            i <= entries@.len(),
            forall|j: int| 0 <= j < i ==> entries@[j].0@ != key@,
        decreases entries@.len() - i,
    {
        if entries[i].0 == *key {
            return Some(i);
        }
        i = i + 1;
    }
    None
}

/// Whether `doc` is among `docs`.
fn contains_doc(docs: &Vec<String>, doc: &String) -> (r: bool)
    ensures
        r == docs@.map_values(|d: String| d@).contains(doc@),
{
    let ghost views = docs@.map_values(|d: String| d@);
    let mut i: usize = 0;
    while i < docs.len()
        invariant
            i <= docs@.len(),
            views == docs@.map_values(|d: String| d@),
            forall|j: int| 0 <= j < i ==> views[j] != doc@,
        decreases docs@.len() - i,
    {
        if docs[i] == *doc {
            assert(views[i as int] == doc@);
            return true;
        }
        i = i + 1;
    }
    false
}

/// The partial index of one worker: each key of a word on `lines`, once,
/// with the document `document_path` as its only document.
pub fn index_document_for_thread(document_path: &str, lines: &[&str]) -> (r: Vec<(String, Vec<String>)>)
    ensures
        distinct_keys(entry_views(r@)),
        forall|i: int| 0 <= i < r@.len() ==> (#[trigger] entry_views(r@)[i]).1 == seq![document_path@],
        postings_map(entry_views(r@)) == keys_to_document(line_keys(line_views(lines@)), document_path@),
{
    let ghost doc = document_path@;
    let ghost all = line_views(lines@);
    let mut local: Vec<(String, Vec<String>)> = Vec::new();
    proof {
        assert(entry_views(local@) =~= Seq::<EntryView>::empty());
        assert(all.take(0) =~= Seq::<Seq<char>>::empty());
        assert(line_keys(all.take(0)) =~= Set::<Seq<char>>::empty());
        assert(postings_map(entry_views(local@)) =~= keys_to_document(line_keys(all.take(0)), doc));
    }
    let mut i: usize = 0;
    while i < lines.len()
        invariant
            i <= lines@.len(),
            all == line_views(lines@),
            doc == document_path@,
            distinct_keys(entry_views(local@)),
            forall|t: int| 0 <= t < local@.len() ==> (#[trigger] entry_views(local@)[t]).1 == seq![doc],
            postings_map(entry_views(local@)) == keys_to_document(line_keys(all.take(i as int)), doc),
        decreases lines@.len() - i,
    {
        let words = split_words(lines[i]);
        let ghost ws = words@.map_values(|w: &str| w@);
        let ghost done = line_keys(all.take(i as int));
        assert(all[i as int] == lines@[i as int]@);
        proof {
            assert(ws.take(0) =~= Seq::<Seq<char>>::empty());
            assert(word_keys(ws.take(0)) =~= Set::<Seq<char>>::empty());
            assert(done.union(word_keys(ws.take(0))) =~= done);
        }
        let mut j: usize = 0;
        while j < words.len()
            invariant
                j <= words@.len(),
                ws == words@.map_values(|w: &str| w@),
                doc == document_path@,
                distinct_keys(entry_views(local@)),
                forall|t: int| 0 <= t < local@.len() ==> (#[trigger] entry_views(local@)[t]).1 == seq![doc],
                postings_map(entry_views(local@)) == keys_to_document(
                    done.union(word_keys(ws.take(j as int))),
                    doc,
                ),
            decreases words@.len() - j,
        {
            let key = normalize(words[j]);
            let ghost e = entry_views(local@);
            let ghost before = done.union(word_keys(ws.take(j as int)));
            proof {
                lemma_word_keys_step(ws, j as int);
                assert(done.union(word_keys(ws.take(j as int + 1))) =~= before.insert(key@));
            }
            match find_key(&local, &key) {
                Some(p) => {
                    proof {
                        assert(e[p as int].0 == key@);
                        assert(postings_map(e).contains_key(key@));
                        assert(before.insert(key@) =~= before);
                    }
                },
                None => {
                    proof {
                        if postings_map(e).contains_key(key@) {
                            let t = choose|t: int| 0 <= t < e.len() && e[t].0 == key@;
                            assert(local@[t].0@ == key@);
                        }
                    }
                    let mut docs: Vec<String> = Vec::new();
                    docs.push(document_path.to_owned());
                    let ghost old_local = local@;
                    let entry: (String, Vec<String>) = (key, docs);
                    let ghost added = entry;
                    local.push(entry);
                    proof {
                        let x: EntryView = (added.0@, seq![doc]);
                        assert(added.1@.map_values(|d: String| d@) =~= seq![doc]);
                        assert(local@ == old_local.push(added));
                        assert(entry_views(local@) =~= e.push(x));
                        lemma_push_entry(e, x);
                        assert forall|d: Seq<char>| x.1.contains(d) <==> d == doc by {
                            if d == doc {
                                assert(x.1[0] == d);
                            }
                        }
                        assert(x.1.to_set() =~= set![doc]);
                        assert(keys_to_document(before.insert(key@), doc) =~= keys_to_document(before, doc).insert(
                            key@,
                            set![doc],
                        ));
                        let f = entry_views(local@);
                        assert forall|t: int| 0 <= t < f.len() implies (#[trigger] f[t]).1 == seq![doc] by {
                            if t < e.len() {
                                assert(f[t] == e[t]);
                            }
                        }
                    }
                },
            }
            j = j + 1;
        }
        proof {
            assert(ws.take(j as int) =~= ws);
            lemma_line_keys_step(all, i as int);
        }
        i = i + 1;
    }
    proof {
        assert(all.take(i as int) =~= all);
    }
    local
}

/// An in-memory inverted index: each token to the documents that hold it.
pub struct InvertedIndex {
    indices: Vec<(String, Vec<String>)>,
}

impl View for InvertedIndex {
    type V = Map<Seq<char>, Set<Seq<char>>>;

    closed spec fn view(&self) -> Map<Seq<char>, Set<Seq<char>>> {
        postings_map(entry_views(self.indices@))
    }
}

impl InvertedIndex {
    /// Keys are unique, and no document is listed twice under a key.
    pub closed spec fn wf(&self) -> bool {
        let e = entry_views(self.indices@);
        &&& distinct_keys(e)
        &&& forall|i: int| 0 <= i < e.len() ==> (#[trigger] e[i]).1.no_duplicates()
    }

    /// An empty index.
    pub fn new() -> (r: Self)
        ensures
            r.wf(),
            r@ == Map::<Seq<char>, Set<Seq<char>>>::empty(),
    {
        let r = InvertedIndex { indices: Vec::new() };
        assert(entry_views(r.indices@) =~= Seq::<EntryView>::empty());
        assert(r@ =~= Map::<Seq<char>, Set<Seq<char>>>::empty());
        r
    }

    /// The number of distinct tokens in the index.
    pub fn len(&self) -> (r: usize)
        requires
            self.wf(),
        ensures
            self@.dom().finite(),
            r == self@.dom().len(),
    {
        proof {
            self.lemma_dom();
        }
        self.indices.len()
    }

    proof fn lemma_dom(&self)
        requires
            self.wf(),
        ensures
            self@.dom().finite(),
            self@.dom().len() == self.indices@.len(),
    {
        let e = entry_views(self.indices@);
        let keys = e.map_values(|x: EntryView| x.0);
        assert(keys.no_duplicates()) by {
            assert forall|i: int, j: int| 0 <= i < keys.len() && 0 <= j < keys.len() && i != j
                implies keys[i] != keys[j] by {
                if i < j {
                } else {
                }
            }
        }
        keys.unique_seq_to_set();
        assert forall|k: Seq<char>| self@.dom().contains(k) <==> keys.to_set().contains(k) by {
            if self@.dom().contains(k) {
                let i = choose|i: int| 0 <= i < e.len() && e[i].0 == k;
                assert(keys[i] == k);
            }
            if keys.to_set().contains(k) {
                let i = choose|i: int| 0 <= i < keys.len() && keys[i] == k;
                assert(e[i].0 == k);
            }
        }
        assert(self@.dom() =~= keys.to_set());
    }

    /// Merges a partial index into this one: each of its keys is added if
    /// absent, and its documents are added to those of the key.
    pub fn merge(&mut self, partial: &Vec<(String, Vec<String>)>)
        requires
            old(self).wf(),
        ensures
            final(self).wf(),
            final(self)@ == union_of(old(self)@, postings_map(entry_views(partial@))),
    {
        let ghost start = self@;
        let ghost p = entry_views(partial@);
        let mut j: usize = 0;
        proof {
            assert(p.take(0) =~= Seq::<EntryView>::empty());
            let u = union_of(start, postings_map(p.take(0)));
            assert forall|k: Seq<char>| u.contains_key(k) implies u[k] == start[k] by {
                assert(!postings_map(p.take(0)).contains_key(k));
                assert(u[k] =~= start[k]);
            }
            assert(u =~= start);
        }
        while j < partial.len()
            invariant
                self.wf(),
                j <= partial@.len(),
                p == entry_views(partial@),
                self@ == union_of(start, postings_map(p.take(j as int))),
            decreases partial@.len() - j,
        {
            let key = &partial[j].0;
            let docs = &partial[j].1;
            let ghost before = self@;
            let ghost dv = docs@.map_values(|d: String| d@);
            let i = self.slot(key);
            proof {
                assert(dv.take(0).to_set() =~= Set::<Seq<char>>::empty());
                assert(postings_in(before, key@).union(dv.take(0).to_set()) =~= postings_in(
                    before,
                    key@,
                ));
            }
            let mut m: usize = 0;
            while m < docs.len()
                invariant
                    self.wf(),
                    m <= docs@.len(),
                    dv == docs@.map_values(|d: String| d@),
                    i < self.indices@.len(),
                    self.indices@[i as int].0@ == key@,
                    self@ == before.insert(key@, postings_in(before, key@).union(dv.take(m as int).to_set())),
                decreases docs@.len() - m,
            {
                self.add_posting(i, &docs[m]);
                proof {
                    lemma_take_push_to_set(dv, m as int);
                    assert(postings_in(before, key@).union(dv.take(m as int).to_set()).insert(docs@[m as int]@)
                        =~= postings_in(before, key@).union(dv.take(m as int + 1).to_set()));
                }
                m = m + 1;
            }
            proof {
                assert(dv.take(m as int) =~= dv);
                assert(p[j as int] == (key@, dv));
                lemma_merge_step(start, before, p, j as int);
            }
            j = j + 1;
        }
        proof {
            assert(p.take(j as int) =~= p);
        }
    }

    /// Indexes the document `document_path` whose text is `content`, with
    /// its lines cut into ranges for `thread_count` workers: every key of a
    /// word of the text gets the document among its documents. Zero
    /// workers are refused, and the index is then left as it was.
    pub fn index(&mut self, document_path: &str, content: &str, thread_count: usize) -> (r: Result<
        (),
        IndexError,
    >)
        requires
            old(self).wf(),
        ensures
            final(self).wf(),
            r is Err <==> thread_count == 0,
            r is Err ==> r->Err_0 == IndexError::ZeroThreads && final(self)@ == old(self)@,
            r is Ok ==> final(self)@ == with_document(
                old(self)@,
                document_path@,
                partition_keys(lines_of(content@), thread_count as nat),
            ),
            r is Ok ==> final(self)@ == with_document(
                old(self)@,
                document_path@,
                document_keys(content@),
            ),
            old(self)@.dom().subset_of(final(self)@.dom()),
            old(self)@.dom().len() <= final(self)@.dom().len(),
    {
        proof {
            self.lemma_dom();
        }
        let lines = document_lines(content);
        let ghost all = lines_of(content@);
        proof {
            assert(line_views(lines@) == all);
        }
        let ranges = match line_ranges(lines.len(), thread_count) {
            Ok(ranges) => ranges,
            Err(e) => {
                return Err(e);
            },
        };
        let ghost start = self@;
        let ghost t = thread_count as nat;
        let ghost n = all.len();
        proof {
            lemma_ranges_cover(n, t);
            assert(keys_of_workers(all, t, 0) =~= Set::<Seq<char>>::empty());
            assert forall|k: Seq<char>| start.contains_key(k) implies with_document(
                start,
                document_path@,
                Set::empty(),
            )[k] == start[k] by {
                assert(with_document(start, document_path@, Set::empty())[k] =~= start[k]);
            }
            assert(with_document(start, document_path@, keys_of_workers(all, t, 0)) =~= start);
        }
        let mut w: usize = 0;
        while w < ranges.len()
            invariant
                self.wf(),
                w <= ranges@.len(),
                thread_count > 0,
                t == thread_count as nat,
                n == all.len(),
                n == lines@.len(),
                all == line_views(lines@),
                ranges@.len() == worker_count(n, t),
                forall|i: int|
                    0 <= i < ranges@.len() ==> ranges@[i].0 == range_start(n, t, i as nat)
                        && ranges@[i].1 == range_end(n, t, i as nat),
                forall|i: nat|
                    i < worker_count(n, t) ==> range_start(n, t, i) <= #[trigger] range_end(n, t, i)
                        <= n,
                self@ == with_document(start, document_path@, keys_of_workers(all, t, w as nat)),
            decreases ranges@.len() - w,
        {
            let (s, e) = ranges[w];
            assert(range_start(n, t, w as nat) <= range_end(n, t, w as nat) <= n);
            let part = index_document_for_thread(document_path, &lines.as_slice()[s..e]);
            let ghost before = self@;
            self.merge(&part);
            proof {
                let sub = lines@.subrange(s as int, e as int);
                assert(line_views(sub) =~= all.subrange(s as int, e as int));
                lemma_keys_of_workers_step(all, t, w as nat);
                lemma_add_keys(
                    start,
                    document_path@,
                    keys_of_workers(all, t, w as nat),
                    worker_keys(all, t, w as nat),
                );
            }
            w = w + 1;
        }
        proof {
            lemma_partition_covers(all, t);
            self.lemma_dom();
            vstd::set_lib::lemma_len_subset(start.dom(), self@.dom());
        }
        Ok(())
    }

    /// The distinct tokens of the index, each once.
    pub fn keys(&self) -> (r: Vec<String>)
        requires
            self.wf(),
        ensures
            r@.map_values(|k: String| k@).no_duplicates(),
            r@.map_values(|k: String| k@).to_set() == self@.dom(),
    {
        let ghost e = entry_views(self.indices@);
        let mut out: Vec<String> = Vec::new();
        let mut j: usize = 0;
        while j < self.indices.len()
            invariant
                self.wf(),
                e == entry_views(self.indices@),
                j <= e.len(),
                out@.len() == j,
                forall|x: int| 0 <= x < j ==> #[trigger] out@[x]@ == e[x].0,
            decreases e.len() - j,
        {
            let key = self.indices[j].0.clone();
            out.push(key);
            j = j + 1;
        }
        let ghost kv = out@.map_values(|k: String| k@);
        proof {
            assert forall|x: int, y: int| 0 <= x < kv.len() && 0 <= y < kv.len() && x != y implies kv[x]
                != kv[y] by {
                assert(kv[x] == e[x].0 && kv[y] == e[y].0);
            }
            assert forall|k: Seq<char>| kv.to_set().contains(k) <==> self@.dom().contains(k) by {
                if kv.to_set().contains(k) {
                    let x = choose|x: int| 0 <= x < kv.len() && kv[x] == k;
                    assert(e[x].0 == k);
                }
                if self@.dom().contains(k) {
                    let x = choose|x: int| 0 <= x < e.len() && e[x].0 == k;
                    assert(kv[x] == k);
                }
            }
            assert(kv.to_set() =~= self@.dom());
        }
        out
    }

    /// The documents listed under `key`, each once, if the key is there.
    pub fn postings(&self, key: &str) -> (r: Option<Vec<String>>)
        requires
            self.wf(),
        ensures
            r is Some <==> self@.contains_key(key@),
            r is Some ==> r->Some_0@.map_values(|d: String| d@).no_duplicates(),
            r is Some ==> r->Some_0@.map_values(|d: String| d@).to_set() == self@[key@],
    {
        let wanted = key.to_owned();
        let ghost e = entry_views(self.indices@);
        match find_key(&self.indices, &wanted) {
            None => {
                proof {
                    if self@.contains_key(key@) {
                        let t = choose|t: int| 0 <= t < e.len() && e[t].0 == key@;
                        assert(self.indices@[t].0@ == key@);
                    }
                }
                None
            },
            Some(i) => {
                proof {
                    lemma_entry(e, i as int);
                }
                let docs = &self.indices[i].1;
                let ghost dv = docs@.map_values(|d: String| d@);
                let mut out: Vec<String> = Vec::new();
                let mut j: usize = 0;
                while j < docs.len()
                    invariant
                        j <= docs@.len(),
                        dv == docs@.map_values(|d: String| d@),
                        out@.map_values(|d: String| d@) == dv.take(j as int),
                    decreases docs@.len() - j,
                {
                    let ghost before = out@;
                    let doc = docs[j].clone();
                    assert(doc@ == dv[j as int]);
                    out.push(doc);
                    proof {
                        assert(out@ == before.push(doc));
                        assert(before.map_values(|d: String| d@).len() == j);
                        assert(before.len() == j);
                        assert forall|x: int| 0 <= x < j implies out@[x]@ == dv[x] by {
                            assert(out@[x] == before[x]);
                            assert(before.map_values(|d: String| d@)[x] == dv.take(j as int)[x]);
                        }
                        assert(out@.map_values(|d: String| d@) =~= dv.take(j as int + 1));
                    }
                    j = j + 1;
                }
                proof {
                    assert(dv.take(j as int) =~= dv);
                    assert(e[i as int].1 == dv);
                }
                Some(out)
            },
        }
    }

    /// A one-line summary: the number of distinct tokens, then
    /// " inverted indexes in memory".
    pub fn to_string(&self) -> (r: String)
        requires
            self.wf(),
        ensures
            r@ == decimal_of(self@.dom().len()) + " inverted indexes in memory"@,
    {
        let mut r = decimal(self.len());
        r.append(" inverted indexes in memory");
        r
    }

    /// The position of `key`, added with no documents if it was absent.
    fn slot(&mut self, key: &String) -> (r: usize)
        requires
            old(self).wf(),
        ensures
            final(self).wf(),
            r < final(self).indices@.len(),
            final(self).indices@[r as int].0@ == key@,
            final(self)@ == old(self)@.insert(key@, postings_in(old(self)@, key@)),
    {
        match find_key(&self.indices, key) {
            Some(i) => {
                proof {
                    lemma_entry(entry_views(self.indices@), i as int);
                    assert(self@.insert(key@, postings_in(self@, key@)) =~= self@);
                }
                i
            },
            None => {
                let ghost e = entry_views(self.indices@);
                proof {
                    if self@.contains_key(key@) {
                        let j = choose|j: int| 0 <= j < e.len() && e[j].0 == key@;
                        assert(self.indices@[j].0@ == key@);
                    }
                }
                let ghost before = self.indices@;
                let entry: (String, Vec<String>) = (key.clone(), Vec::new());
                let ghost added = entry;
                self.indices.push(entry);
                proof {
                    let x: EntryView = (key@, Seq::empty());
                    assert(added.1@.map_values(|d: String| d@) =~= Seq::<Seq<char>>::empty());
                    assert(self.indices@ == before.push(added));
                    assert(entry_views(self.indices@) =~= e.push(x));
                    lemma_push_entry(e, x);
                    assert(x.1.to_set() =~= Set::<Seq<char>>::empty());
                    let f = entry_views(self.indices@);
                    assert forall|i: int| 0 <= i < f.len() implies (#[trigger] f[i]).1.no_duplicates() by {
                        if i < e.len() {
                            assert(f[i] == e[i]);
                        }
                    }
                }
                self.indices.len() - 1
            },
        }
    }

    /// Lists `doc` under the key at position `i`, unless it is listed there.
    fn add_posting(&mut self, i: usize, doc: &String)
        requires
            old(self).wf(),
            i < old(self).indices@.len(),
        ensures
            final(self).wf(),
            final(self).indices@.len() == old(self).indices@.len(),
            final(self).indices@[i as int].0 == old(self).indices@[i as int].0,
            final(self)@ == old(self)@.insert(
                old(self).indices@[i as int].0@,
                old(self)@[old(self).indices@[i as int].0@].insert(doc@),
            ),
    {
        let ghost e = entry_views(self.indices@);
        proof {
            lemma_entry(e, i as int);
        }
        if !contains_doc(&self.indices[i].1, doc) {
            let ghost before = self.indices@;
            self.indices[i].1.push(doc.clone());
            proof {
                let docs = e[i as int].1.push(doc@);
                let now = self.indices@[i as int];
                assert(now.1@ == before[i as int].1@.push(*doc));
                assert(now.1@.map_values(|d: String| d@) =~= docs);
                assert(self.indices@ == before.update(i as int, now));
                assert(entry_views(self.indices@) =~= e.update(i as int, (e[i as int].0, docs)));
                lemma_update_entry(e, i as int, docs);
                assert forall|x: Seq<char>| docs.contains(x) <==> e[i as int].1.contains(x) || x == doc@ by {
                    if docs.contains(x) {
                        let j = choose|j: int| 0 <= j < docs.len() && docs[j] == x;
                        if j < e[i as int].1.len() {
                            assert(e[i as int].1[j] == x);
                        }
                    }
                    if e[i as int].1.contains(x) {
                        let j = choose|j: int| 0 <= j < e[i as int].1.len() && e[i as int].1[j] == x;
                        assert(docs[j] == x);
                    }
                    if x == doc@ {
                        assert(docs[docs.len() - 1] == x);
                    }
                }
                assert(docs.to_set() =~= e[i as int].1.to_set().insert(doc@));
                let f = entry_views(self.indices@);
                assert forall|j: int| 0 <= j < f.len() implies (#[trigger] f[j]).1.no_duplicates() by {
                    if j != i {
                        assert(f[j] == e[j]);
                    }
                }
            }
        } else {
            proof {
                assert(e[i as int].1.to_set().insert(doc@) =~= e[i as int].1.to_set());
                assert(self@.insert(e[i as int].0, self@[e[i as int].0].insert(doc@)) =~= self@);
            }
        }
    }
}

} // verus!
