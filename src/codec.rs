use vstd::prelude::*;
use crate::error::StoreError;
use crate::store::{map_of, RecordView, Store};

verus! {

/// Tab and newline separate fields and records in the text format, so neither
/// may occur inside a key or a value.
pub open spec fn is_reserved(c: char) -> bool {
    c == '\t' || c == '\n'
}

/// `s` holds no reserved character.
pub open spec fn is_clean(s: Seq<char>) -> bool {
    forall|i: int| 0 <= i < s.len() ==> !is_reserved(#[trigger] s[i])
}

/// Every key and every value among the records is clean.
pub open spec fn records_clean(rs: Seq<RecordView>) -> bool {
    forall|i: int| 0 <= i < rs.len() ==> is_clean(#[trigger] rs[i].0) && is_clean(rs[i].1)
}

/// `s` holds no tab.
pub open spec fn tab_free(s: Seq<char>) -> bool {
    forall|i: int| 0 <= i < s.len() ==> #[trigger] s[i] != '\t'
}

/// The line of one record: its key, a tab, its value.
pub open spec fn record_line(r: RecordView) -> Seq<char> {
    r.0 + seq!['\t'] + r.1
}

/// The text of a sequence of records: each record's line followed by a
/// newline, in order.
pub open spec fn encode_records(rs: Seq<RecordView>) -> Seq<char>
    decreases rs.len(),
{
    if rs.len() == 0 {
        Seq::empty()
    } else {
        encode_records(rs.drop_last()) + record_line(rs.last()) + seq!['\n']
    }
}

/// The pieces of `s` between newline characters, in order. There is always at
/// least one piece; a text that ends in a newline has an empty last piece.
pub open spec fn lines(s: Seq<char>) -> Seq<Seq<char>>
    decreases s.len(),
{
    if s.len() == 0 {
        seq![Seq::empty()]
    } else {
        let p = lines(s.drop_last());
        if s.last() == '\n' {
            p.push(Seq::empty())
        } else {
            p.update(p.len() - 1, p.last().push(s.last()))
        }
    }
}

/// Position `i` of `l` holds its first tab.
pub open spec fn is_first_tab(l: Seq<char>, i: int) -> bool {
    0 <= i < l.len() && l[i] == '\t' && tab_free(l.take(i))
}

/// The record that a line holds: what precedes its first tab is the key, all
/// that follows it the value. A line without a tab holds none.
pub open spec fn parse_line(l: Seq<char>) -> Option<RecordView> {
    if exists|i: int| is_first_tab(l, i) {
        let i = choose|i: int| is_first_tab(l, i);
        Some((l.take(i), l.skip(i + 1)))
    } else {
        None
    }
}

/// The mapping that a sequence of lines holds: empty lines are skipped, every
/// other line is parsed and its record inserted in order, so the last
/// occurrence of a key wins. `None` when a non-empty line has no tab.
pub open spec fn decode_lines(ls: Seq<Seq<char>>) -> Option<Map<Seq<char>, Seq<char>>>
    decreases ls.len(),
{
    if ls.len() == 0 {
        Some(Map::empty())
    } else {
        match decode_lines(ls.drop_last()) {
            None => None,
            Some(m) => {
                let l = ls.last();
                if l.len() == 0 {
                    Some(m)
                } else {
                    match parse_line(l) {
                        Some(r) => Some(m.insert(r.0, r.1)),
                        None => None,
                    }
                }
            },
        }
    }
}

/// The mapping that a text holds, or `None` when it is malformed.
pub open spec fn decode_text(s: Seq<char>) -> Option<Map<Seq<char>, Seq<char>>> {
    decode_lines(lines(s))
}

/// There is always at least one line.
pub proof fn lemma_lines_len(s: Seq<char>)
    ensures
        lines(s).len() >= 1,
    decreases s.len(),
{
    if s.len() > 0 {
        lemma_lines_len(s.drop_last());
    }
}

/// The pieces joined again, with a newline between each two.
pub open spec fn join_lines(ls: Seq<Seq<char>>) -> Seq<char>
    decreases ls.len(),
{
    if ls.len() == 0 {
        Seq::empty()
    } else if ls.len() == 1 {
        ls[0]
    } else {
        join_lines(ls.drop_last()) + seq!['\n'] + ls.last()
    }
}

/// `lines` splits exactly at the newlines: no piece holds a newline, and the
/// pieces joined with newlines give back the text.
pub proof fn lemma_lines_split(s: Seq<char>)
    ensures
        forall|i: int, j: int|
            0 <= i < lines(s).len() && 0 <= j < lines(s)[i].len() ==> #[trigger] lines(s)[i][j]
                != '\n',
        join_lines(lines(s)) == s,
    decreases s.len(),
{
    if s.len() == 0 {
        assert(join_lines(lines(s)) =~= s);
    } else {
        let p = s.drop_last();
        let c = s.last();
        lemma_lines_split(p);
        lemma_lines_len(p);
        let l = lines(p);
        if c == '\n' {
            let ls = l.push(Seq::empty());
            assert(ls.drop_last() =~= l);
            assert(join_lines(ls) =~= s);
            assert forall|i: int, j: int|
                0 <= i < ls.len() && 0 <= j < ls[i].len() implies #[trigger] ls[i][j] != '\n' by {
                assert(ls[i] == l[i]);
            }
        } else {
            let ls = l.update(l.len() - 1, l.last().push(c));
            assert(ls.drop_last() =~= l.drop_last());
            if l.len() == 1 {
                assert(join_lines(ls) =~= s);
            } else {
                assert(ls.last() == l.last().push(c));
                assert(join_lines(l) == join_lines(l.drop_last()) + seq!['\n'] + l.last());
                assert(join_lines(ls) == join_lines(l.drop_last()) + seq!['\n'] + l.last().push(c));
                assert(join_lines(ls) =~= join_lines(l).push(c));
                assert(p.push(c) =~= s);
            }
            assert forall|i: int, j: int|
                0 <= i < ls.len() && 0 <= j < ls[i].len() implies #[trigger] ls[i][j] != '\n' by {
                if i < l.len() - 1 {
                    assert(ls[i] == l[i]);
                } else if j < l.last().len() {
                    assert(ls[i][j] == l[l.len() - 1][j]);
                }
            }
        }
    }
}

/// Appending text without a newline extends the last line only.
pub proof fn lemma_lines_append_plain(a: Seq<char>, t: Seq<char>)
    requires
        forall|i: int| 0 <= i < t.len() ==> #[trigger] t[i] != '\n',
    ensures
        lines(a).len() >= 1,
        lines(a + t) == lines(a).update(lines(a).len() - 1, lines(a).last() + t),
    decreases t.len(),
{
    lemma_lines_len(a);
    if t.len() == 0 {
        assert(a + t =~= a);
        assert(lines(a).last() + t =~= lines(a).last());
        assert(lines(a).update(lines(a).len() - 1, lines(a).last()) =~= lines(a));
    } else {
        let u = t.drop_last();
        lemma_lines_append_plain(a, u);
        assert((a + t).drop_last() =~= a + u);
        assert((a + t).last() == t.last());
        assert(t[t.len() - 1] != '\n');
        let p = lines(a + u);
        assert(p.len() == lines(a).len());
        assert(p.last() == lines(a).last() + u);
        assert(lines(a + t) == p.update(p.len() - 1, p.last().push(t.last())));
        assert(p.last().push(t.last()) =~= lines(a).last() + t);
        assert(lines(a + t) =~= lines(a).update(lines(a).len() - 1, lines(a).last() + t));
    }
}

/// Appending text keeps every line of `a` but its last.
pub proof fn lemma_lines_extend(a: Seq<char>, b: Seq<char>)
    ensures
        lines(a).len() >= 1,
        lines(a + b).len() >= lines(a).len(),
        lines(a + b).take(lines(a).len() - 1) == lines(a).drop_last(),
    decreases b.len(),
{
    lemma_lines_len(a);
    if b.len() == 0 {
        assert(a + b =~= a);
    } else {
        let c = b.drop_last();
        lemma_lines_extend(a, c);
        assert((a + b).drop_last() =~= a + c);
        lemma_lines_len(a + c);
        assert(lines(a + b).take(lines(a).len() - 1) =~= lines(a).drop_last());
    }
}

/// With a tab-free key, the line of a record parses back to the record.
pub proof fn lemma_parse_record_line(r: RecordView)
    requires
        tab_free(r.0),
    ensures
        parse_line(record_line(r)) == Some(r),
{
    let l = record_line(r);
    let n = r.0.len() as int;
    assert(l.take(n) =~= r.0);
    assert(is_first_tab(l, n));
    let i = choose|i: int| is_first_tab(l, i);
    if i < n {
        assert(l.take(n)[i] == l[i]);
    } else if i > n {
        assert(l.take(i)[n] == '\t');
    }
    assert(l.skip(n + 1) =~= r.1);
}

/// Dropping the last record keeps the rest clean.
proof fn lemma_records_clean_drop_last(rs: Seq<RecordView>)
    requires
        records_clean(rs),
        rs.len() > 0,
    ensures
        records_clean(rs.drop_last()),
        is_clean(rs.last().0),
        is_clean(rs.last().1),
{
    let q = rs.drop_last();
    assert(is_clean(rs[rs.len() - 1].0));
    assert forall|i: int| 0 <= i < q.len() implies is_clean(#[trigger] q[i].0) && is_clean(q[i].1) by {
        assert(q[i] == rs[i]);
    }
}

/// The lines of the records, in order.
pub open spec fn record_lines(rs: Seq<RecordView>) -> Seq<Seq<char>> {
    rs.map_values(|r: RecordView| record_line(r))
}

/// The text of clean records splits into their lines and a final empty piece.
pub proof fn lemma_lines_of_encoding(rs: Seq<RecordView>)
    requires
        records_clean(rs),
    ensures
        lines(encode_records(rs)) == record_lines(rs).push(Seq::empty()),
    decreases rs.len(),
{
    if rs.len() == 0 {
        assert(lines(encode_records(rs)) =~= record_lines(rs).push(Seq::empty()));
    } else {
        let q = rs.drop_last();
        let r = rs.last();
        lemma_records_clean_drop_last(rs);
        lemma_lines_of_encoding(q);
        let eq = encode_records(q);
        let l = record_line(r);
        assert(is_clean(rs[rs.len() - 1].0) && is_clean(rs[rs.len() - 1].1));
        assert forall|i: int| 0 <= i < l.len() implies #[trigger] l[i] != '\n' by {
            if i < r.0.len() {
                assert(l[i] == r.0[i]);
            } else if i > r.0.len() {
                assert(l[i] == r.1[i - r.0.len() - 1]);
            }
        }
        lemma_lines_append_plain(eq, l);
        let e = encode_records(rs);
        assert(e.drop_last() =~= eq + l);
        assert(Seq::<char>::empty() + l =~= l);
        assert(record_lines(rs) =~= record_lines(q).push(l));
        assert(lines(e) =~= record_lines(rs).push(Seq::empty()));
    }
}

/// The lines of clean records decode to the mapping the records denote.
pub proof fn lemma_decode_record_lines(rs: Seq<RecordView>)
    requires
        records_clean(rs),
    ensures
        decode_lines(record_lines(rs)) == Some(map_of(rs)),
    decreases rs.len(),
{
    if rs.len() > 0 {
        let q = rs.drop_last();
        let r = rs.last();
        lemma_records_clean_drop_last(rs);
        lemma_decode_record_lines(q);
        assert(record_lines(rs).drop_last() =~= record_lines(q));
        assert(is_clean(rs[rs.len() - 1].0));
        assert(tab_free(r.0)) by {
            assert forall|i: int| 0 <= i < r.0.len() implies #[trigger] r.0[i] != '\t' by {
                assert(!is_reserved(r.0[i]));
            }
        }
        lemma_parse_record_line(r);
        assert(record_line(r)[r.0.len() as int] == '\t');
    }
}

/// Round trip: clean records, encoded and decoded again, give back the
/// mapping they denote.
pub proof fn lemma_round_trip(rs: Seq<RecordView>)
    requires
        records_clean(rs),
    ensures
        decode_text(encode_records(rs)) == Some(map_of(rs)),
{
    lemma_lines_of_encoding(rs);
    lemma_decode_record_lines(rs);
    let ls = record_lines(rs).push(Seq::empty());
    assert(ls.drop_last() =~= record_lines(rs));
}

/// Once a prefix of the lines fails to decode, so do all the lines.
pub proof fn lemma_decode_lines_prefix_none(ls: Seq<Seq<char>>, n: int)
    requires
        0 <= n <= ls.len(),
        decode_lines(ls.take(n)) is None,
    ensures
        decode_lines(ls) is None,
    decreases ls.len(),
{
    if n < ls.len() {
        assert(ls.drop_last().take(n) =~= ls.take(n));
        lemma_decode_lines_prefix_none(ls.drop_last(), n);
    } else {
        assert(ls.take(n) =~= ls);
    }
}

/// A non-empty line without a tab makes the whole text fail to decode.
pub proof fn lemma_malformed_line_rejected(s: Seq<char>, i: int)
    requires
        0 <= i < lines(s).len(),
        lines(s)[i].len() > 0,
        tab_free(lines(s)[i]),
    ensures
        decode_text(s) is None,
{
    let ls = lines(s);
    let pre = ls.take(i + 1);
    assert(pre.last() == ls[i]);
    if exists|j: int| is_first_tab(ls[i], j) {
        let j = choose|j: int| is_first_tab(ls[i], j);
        assert(ls[i][j] == '\t');
    }
    assert(decode_lines(pre) is None);
    lemma_decode_lines_prefix_none(ls, i + 1);
}

/// Relies on String::push: appends one character.
#[verifier::external_body]
fn push_char(s: &mut String, c: char)
    ensures
        final(s)@ == old(s)@.push(c),
{
    s.push(c)
}

/// Tells whether `s` holds a tab or a newline.
pub fn has_reserved(s: &str) -> (r: bool)
    ensures
        r == !is_clean(s@),
{
    for c in it: s.chars()
        invariant
            it.seq() == s@,
            forall|j: int| 0 <= j < it.index() ==> !is_reserved(#[trigger] s@[j]),
    {
        if c == '\t' || c == '\n' {
            return true;
        }
    }
    false
}

/// The text of the store: one line per record, in the store's order, each
/// the key, a tab, the value and a newline. Fails with `EncodingConflict`,
/// and produces no text, when some key or value holds a tab or a newline.
pub fn encode(store: &Store) -> (r: Result<String, StoreError>)
    requires
        store.wf(),
    ensures
        match r {
            Ok(text) => records_clean(store.records()) && text@ == encode_records(store.records()),
            Err(e) => e == StoreError::EncodingConflict && !records_clean(store.records()),
        },
{
    let ghost rs = store.records();
    let n = store.len();
    let mut out = String::new();
    let mut i: usize = 0;
    while i < n
        invariant
            n == rs.len(),
            rs == store.records(),
            i <= n,
            records_clean(rs.take(i as int)),
            out@ == encode_records(rs.take(i as int)),
        decreases n - i,
    {
        let (k, v) = store.entry(i);
        if has_reserved(k.as_str()) || has_reserved(v.as_str()) {
            assert(!records_clean(rs)) by {
                if records_clean(rs) {
                    assert(is_clean(rs[i as int].0) && is_clean(rs[i as int].1));
                }
            }
            return Err(StoreError::EncodingConflict);
        }
        out.append(k.as_str());
        push_char(&mut out, '\t');
        out.append(v.as_str());
        push_char(&mut out, '\n');
        proof {
            let t = rs.take(i + 1);
            assert(t.drop_last() =~= rs.take(i as int));
            assert(t.last() == rs[i as int]);
            assert(out@ =~= encode_records(t));
            assert forall|j: int| 0 <= j < t.len() implies is_clean(#[trigger] t[j].0) && is_clean(t[j].1) by {
                if j < i {
                    assert(t[j] == rs.take(i as int)[j]);
                } else {
                    assert(t[j] == rs[i as int]);
                }
            }
            assert(records_clean(t));
        }
        i = i + 1;
    }
    assert(rs.take(n as int) =~= rs);
    Ok(out)
}

/// The store that a text holds: lines are split at newlines, empty lines are
/// skipped, each other line is split at its first tab into key and value, and
/// a later line for a key overrides an earlier one. Fails with
/// `MalformedRecord`, and builds no store, when a non-empty line has no tab.
pub fn decode(text: &str) -> (r: Result<Store, StoreError>)
    ensures
        match r {
            Ok(store) => store.wf() && decode_text(text@) == Some(store@),
            Err(e) => e == StoreError::MalformedRecord && decode_text(text@) is None,
        },
{
    let mut store = Store::new();
    let mut key = String::new();
    let mut value = String::new();
    let mut in_value = false;
    for c in it: text.chars()
        invariant
            it.seq() == text@,
            store.wf(),
            lines(text@.take(it.index() as int)).len() >= 1,
            decode_lines(lines(text@.take(it.index() as int)).drop_last()) == Some(store@),
            !in_value ==> key@ == lines(text@.take(it.index() as int)).last() && tab_free(key@)
                && value@.len() == 0,
            in_value ==> lines(text@.take(it.index() as int)).last() == key@ + seq!['\t']
                + value@ && tab_free(key@),
    {
        let ghost p = text@.take(it.index() as int);
        let ghost q = text@.take(it.index() + 1);
        proof {
            assert(q.drop_last() =~= p);
            assert(q.last() == c);
        }
        if c == '\n' {
            if in_value {
                proof {
                    lemma_parse_record_line((key@, value@));
                    assert(record_line((key@, value@))[key@.len() as int] == '\t');
                    assert(lines(q).drop_last() =~= lines(p));
                }
                store.insert(key.as_str(), value.as_str());
            } else if !key.as_str().is_empty() {
                proof {
                    assert(key@.len() > 0);
                    lemma_lines_len(q);
                    assert(lines(q).drop_last() =~= lines(p));
                    if exists|j: int| is_first_tab(key@, j) {
                        let j = choose|j: int| is_first_tab(key@, j);
                        assert(key@[j] == '\t');
                    }
                    assert(decode_lines(lines(q).drop_last()) is None);
                    lemma_lines_extend(q, text@.skip(it.index() + 1));
                    assert(q + text@.skip(it.index() + 1) =~= text@);
                    lemma_decode_lines_prefix_none(lines(text@), lines(q).len() - 1);
                }
                return Err(StoreError::MalformedRecord);
            } else {
                proof {
                    assert(lines(q).drop_last() =~= lines(p));
                }
            }
            key = String::new();
            value = String::new();
            in_value = false;
            proof {
                assert(key@ =~= lines(q).last());
            }
        } else if c == '\t' && !in_value {
            in_value = true;
            proof {
                assert(lines(q).drop_last() =~= lines(p).drop_last());
                assert(lines(q).last() =~= key@ + seq!['\t'] + value@);
            }
        } else if in_value {
            push_char(&mut value, c);
            proof {
                assert(lines(q).drop_last() =~= lines(p).drop_last());
                assert(lines(q).last() =~= key@ + seq!['\t'] + value@);
            }
        } else {
            push_char(&mut key, c);
            proof {
                assert(lines(q).drop_last() =~= lines(p).drop_last());
                assert(lines(q).last() =~= key@);
            }
        }
    }
    proof {
        assert(text@.take(text@.len() as int) =~= text@);
    }
    if in_value {
        proof {
            lemma_parse_record_line((key@, value@));
            assert(record_line((key@, value@))[key@.len() as int] == '\t');
        }
        store.insert(key.as_str(), value.as_str());
    } else if !key.as_str().is_empty() {
        proof {
            if exists|j: int| is_first_tab(key@, j) {
                let j = choose|j: int| is_first_tab(key@, j);
                assert(key@[j] == '\t');
            }
        }
        return Err(StoreError::MalformedRecord);
    }
    Ok(store)
}

} // verus!
