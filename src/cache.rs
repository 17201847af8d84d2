//! Key Cache: the newline-delimited file that keeps a bucket's key set
//! between runs, and the choice of where a run's keys come from.
use vstd::prelude::*;
use crate::text::{chars_of, push_char};

verus! {

/// The characters of each key.
pub open spec fn key_views(keys: Seq<String>) -> Seq<Seq<char>> {
    keys.map_values(|k: String| k@)
}

/// The cache file's text: each key followed by a newline.
pub open spec fn encoding(keys: Seq<Seq<char>>) -> Seq<char>
    decreases keys.len(),
{
    if keys.len() == 0 {
        Seq::empty()
    } else {
        keys[0] + seq!['\n'] + encoding(keys.drop_first())
    }
}

/// A line without its terminating newline, and without the carriage return
/// that precedes that newline, if any.
pub open spec fn strip_cr(line: Seq<char>) -> Seq<char> {
    if line.len() > 0 && line.last() == '\r' {
        line.drop_last()
    } else {
        line
    }
}

/// The lines of `text`, where `cur` holds the characters of the current line
/// read so far: a newline ends a line (dropping a carriage return just before
/// it); characters after the last newline form a last line if there are any.
pub open spec fn lines_from(text: Seq<char>, cur: Seq<char>) -> Seq<Seq<char>>
    decreases text.len(),
{
    if text.len() == 0 {
        if cur.len() == 0 {
            Seq::empty()
        } else {
            seq![cur]
        }
    } else if text[0] == '\n' {
        seq![strip_cr(cur)] + lines_from(text.drop_first(), Seq::empty())
    } else {
        lines_from(text.drop_first(), cur.push(text[0]))
    }
}

/// The lines of `text`.
pub open spec fn lines(text: Seq<char>) -> Seq<Seq<char>> {
    lines_from(text, Seq::empty())
}

/// A key that survives a trip through the cache file: no newline in it, and
/// no carriage return at its end.
pub open spec fn storable_key(k: Seq<char>) -> bool {
    &&& !k.contains('\n')
    &&& !(k.len() > 0 && k.last() == '\r')
}

/// The name of the cache file of a bucket: `<bucket>.files.txt`.
pub fn cache_file_name(bucket: &str) -> (r: String)
    ensures
        r@ == bucket@ + ".files.txt"@,
{
    let mut r = String::from_str(bucket);
    r.append(".files.txt");
    r
}

/// Where a run takes its keys from.
#[derive(Clone, Debug)]
pub enum KeySource {
    /// A key list that the caller supplied, one key per line.
    ListFile { path: String },
    /// The bucket's cache file, left by an earlier listing.
    Cache { path: String },
    /// A fresh listing of the bucket, whose keys are then saved to the cache
    /// file at `cache_path`.
    Listing { cache_path: String },
}

/// A supplied key list takes precedence; otherwise the bucket's cache file is
/// trusted when it is present; otherwise the bucket is listed afresh.
/// `cache_present` tells whether the file named `cache_file_name(bucket)`
/// exists.
pub fn choose_key_source(bucket: &str, key_list: Option<String>, cache_present: bool) -> (r:
    KeySource)
    ensures
        key_list is Some ==> r == (KeySource::ListFile { path: key_list->0 }),
        key_list is None && cache_present ==> r is Cache && r->Cache_path@ == bucket@
            + ".files.txt"@,
        key_list is None && !cache_present ==> r is Listing && r->cache_path@ == bucket@
            + ".files.txt"@,
{
    match key_list {
        Some(path) => KeySource::ListFile { path },
        None => {
            let path = cache_file_name(bucket);
            if cache_present {
                KeySource::Cache { path }
            } else {
                KeySource::Listing { cache_path: path }
            }
        },
    }
}

/// The cache file's text for `keys`.
pub fn encode_keys(keys: &Vec<String>) -> (r: String)
    ensures
        r@ == encoding(key_views(keys@)),
{
    let mut out = String::new();
    let mut i: usize = 0;
    while i < keys.len()
        invariant
            i <= keys@.len(),
            out@ == encoding(key_views(keys@.take(i as int))),
        decreases keys@.len() - i,
    {
        proof {
            lemma_encoding_push(key_views(keys@.take(i as int)), keys@[i as int]@);
            assert(key_views(keys@.take(i + 1)) == key_views(keys@.take(i as int)).push(
                keys@[i as int]@,
            ));
        }
        out.append(keys[i].as_str());
        out.append("\n");
        proof {
            reveal_strlit("\n");
            assert("\n"@ == seq!['\n']);
        }
        i = i + 1;
    }
    assert(keys@.take(keys@.len() as int) == keys@);
    out
}

/// The keys held by a cache file's text: one per line.
pub fn decode_keys(text: &str) -> (r: Vec<String>)
    ensures
        key_views(r@) == lines(text@),
{
    let cs = chars_of(text);
    let mut out: Vec<String> = Vec::new();
    let mut cur = String::new();
    let mut i: usize = 0;
    assert(cs@.skip(0) == cs@);
    assert(key_views(out@) + lines_from(cs@, cur@) == lines_from(cs@, cur@));
    while i < cs.len()
        invariant
            i <= cs@.len(),
            cs@ == text@,
            key_views(out@) + lines_from(cs@.skip(i as int), cur@) == lines(text@),
        decreases cs@.len() - i,
    {
        let c = cs[i];
        let ghost rest = cs@.skip(i as int);
        assert(rest.drop_first() == cs@.skip(i + 1));
        if c == '\n' {
            let line = strip_trailing_cr(cur);
            proof {
                assert(key_views(out@.push(line)) == key_views(out@).push(line@));
                assert(seq![line@] + lines_from(cs@.skip(i + 1), Seq::empty()) == lines_from(rest, cur@));
                assert(key_views(out@).push(line@) + lines_from(cs@.skip(i + 1), Seq::empty())
                    == key_views(out@) + lines_from(rest, cur@));
            }
            out.push(line);
            cur = String::new();
        } else {
            push_char(&mut cur, c);
        }
        i = i + 1;
    }
    if !cur.as_str().is_empty() {
        proof {
            assert(key_views(out@.push(cur)) == key_views(out@).push(cur@));
        }
        out.push(cur);
    } else {
        assert(key_views(out@) + Seq::empty() == key_views(out@));
    }
    out
}

fn strip_trailing_cr(line: String) -> (r: String)
    ensures
        r@ == strip_cr(line@),
{
    let cs = chars_of(line.as_str());
    let n = cs.len();
    if n > 0 && cs[n - 1] == '\r' {
        let mut r = String::new();
        let mut i: usize = 0;
        while i < n - 1
            invariant
                i <= n - 1,
                n == cs@.len(),
                cs@ == line@,
                r@ == cs@.take(i as int),
            decreases n - 1 - i,
        {
            proof {
                assert(cs@.take(i + 1) == cs@.take(i as int).push(cs@[i as int]));
            }
            push_char(&mut r, cs[i]);
            i = i + 1;
        }
        assert(cs@.take(n - 1) == line@.drop_last());
        r
    } else {
        line
    }
}

/// Appending a key to the list appends its line to the text.
proof fn lemma_encoding_push(keys: Seq<Seq<char>>, k: Seq<char>)
    ensures
        encoding(keys.push(k)) == encoding(keys) + k + seq!['\n'],
    decreases keys.len(),
{
    if keys.len() == 0 {
        assert(keys.push(k).drop_first() == Seq::<Seq<char>>::empty());
        assert(encoding(Seq::<Seq<char>>::empty()) == Seq::<char>::empty());
    } else {
        assert(keys.push(k).drop_first() == keys.drop_first().push(k));
        lemma_encoding_push(keys.drop_first(), k);
    }
}

/// Saving keys and loading them back gives the same keys, in the same
/// order (so the same set), provided that no key holds a newline or ends in a
/// carriage return.
pub proof fn lemma_cache_round_trip(keys: Seq<String>)
    requires
        forall|i: int| 0 <= i < keys.len() ==> storable_key(#[trigger] keys[i]@),
    ensures
        lines(encoding(key_views(keys))) == key_views(keys),
        lines(encoding(key_views(keys))).to_set() == key_views(keys).to_set(),
{
    lemma_lines_of_encoding(key_views(keys));
}

proof fn lemma_lines_of_encoding(ks: Seq<Seq<char>>)
    requires
        forall|i: int| 0 <= i < ks.len() ==> storable_key(#[trigger] ks[i]),
    ensures
        lines(encoding(ks)) == ks,
    decreases ks.len(),
{
    if ks.len() > 0 {
        let rest = ks.drop_first();
        assert forall|i: int| 0 <= i < rest.len() implies storable_key(#[trigger] rest[i]) by {
            assert(rest[i] == ks[i + 1]);
        }
        lemma_lines_of_encoding(rest);
        assert(storable_key(ks[0]));
        lemma_lines_after_line(ks[0], encoding(rest), Seq::empty());
        assert(Seq::<char>::empty() + ks[0] == ks[0]);
        assert(ks[0] + seq!['\n'] + encoding(rest) == ks[0] + (seq!['\n'] + encoding(rest)));
        assert(seq![ks[0]] + rest == ks);
    }
}

/// A line of text `w` followed by a newline yields one line and leaves the
/// rest to be read afresh.
proof fn lemma_lines_after_line(w: Seq<char>, rest: Seq<char>, cur: Seq<char>)
    requires
        !w.contains('\n'),
    ensures
        lines_from(w + (seq!['\n'] + rest), cur) == seq![strip_cr(cur + w)] + lines_from(rest, Seq::empty()),
    decreases w.len(),
{
    let text = w + (seq!['\n'] + rest);
    if w.len() == 0 {
        assert(text == seq!['\n'] + rest);
        assert(text.drop_first() == rest);
        assert(cur + w == cur);
    } else {
        assert(text[0] == w[0]);
        assert(w[0] != '\n') by {
            if w[0] == '\n' {
                assert(w.contains('\n'));
            }
        }
        assert(text.drop_first() == w.drop_first() + (seq!['\n'] + rest));
        assert(!w.drop_first().contains('\n')) by {
            if w.drop_first().contains('\n') {
                let j = choose|j: int| 0 <= j < w.drop_first().len() && w.drop_first()[j] == '\n';
                assert(w[j + 1] == '\n');
            }
        }
        lemma_lines_after_line(w.drop_first(), rest, cur.push(w[0]));
        assert(cur.push(w[0]) + w.drop_first() == cur + w);
    }
}

} // verus!
