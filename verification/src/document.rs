//! The persisted document format: a `---` header line followed by one
//! `path: weight` line per entry, with weights written canonically (no
//! leading zeros).  A document is read back exactly as it was written, and
//! reading is specified as the inverse of writing: a text is accepted when
//! and only when it is the rendering of some entry sequence.

use vstd::prelude::*;

use crate::digits::canonical_digits;
use crate::digits::digits_of;
use crate::digits::is_digit;
use crate::digits::lemma_digits_of_canonical;
use crate::digits::lemma_digits_of_value;
use crate::digits::lemma_value_of_canonical;
use crate::digits::parse_digits_range;
use crate::digits::push_decimal;
use crate::text::push_char;
use vstd::string::StrSliceExecFns;
use vstd::string::StringExecFns;

verus! {

/// The separator written between a path and its weight.
pub open spec fn separator() -> Seq<char> {
    seq![':', ' ']
}

/// The header line that opens every document.
pub open spec fn header() -> Seq<char> {
    seq!['-', '-', '-']
}

/// A key can stand on one line exactly when it contains no newline.
pub open spec fn line_safe(k: Seq<char>) -> bool {
    forall|i: int| 0 <= i < k.len() ==> #[trigger] k[i] != '\n'
}

/// Every key of the entry sequence can stand on one line.
pub open spec fn entries_line_safe(es: Seq<(Seq<char>, u32)>) -> bool {
    forall|i: int| 0 <= i < es.len() ==> line_safe(#[trigger] es[i].0)
}

/// The views of a vector of owned entries.
pub open spec fn entry_views(es: Seq<(String, u32)>) -> Seq<(Seq<char>, u32)> {
    es.map_values(|p: (String, u32)| (p.0@, p.1))
}

/// The rendering of one entry line.
pub open spec fn line_of(k: Seq<char>, w: u32) -> Seq<char> {
    k + separator() + digits_of(w as nat)
}

/// The rendering of the entry lines, each preceded by a newline.
pub open spec fn doc_tail(es: Seq<(Seq<char>, u32)>) -> Seq<char>
    decreases es.len(),
{
    if es.len() == 0 {
        Seq::empty()
    } else {
        seq!['\n'] + line_of(es[0].0, es[0].1) + doc_tail(es.drop_first())
    }
}

/// The rendering of a whole document.
pub open spec fn document_of(es: Seq<(Seq<char>, u32)>) -> Seq<char> {
    header() + doc_tail(es)
}

/// Whether some entry renders to exactly this line.
pub open spec fn line_ok(l: Seq<char>) -> bool {
    exists|kw: (Seq<char>, u32)| l == #[trigger] line_of(kw.0, kw.1)
}

/// The entry that renders to this line, if any.
pub open spec fn parse_line(l: Seq<char>) -> Option<(Seq<char>, u32)> {
    if line_ok(l) {
        Some(choose|kw: (Seq<char>, u32)| l == #[trigger] line_of(kw.0, kw.1))
    } else {
        None
    }
}

/// Splits off the longest newline-free prefix; the remainder is empty or
/// starts with a newline.
pub open spec fn take_line(s: Seq<char>) -> (Seq<char>, Seq<char>)
    decreases s.len(),
{
    if s.len() == 0 {
        (Seq::empty(), Seq::empty())
    } else if s[0] == '\n' {
        (Seq::empty(), s)
    } else {
        let rest = take_line(s.drop_first());
        (seq![s[0]] + rest.0, rest.1)
    }
}

/// The remainder of `take_line` is never longer than its input.
pub proof fn lemma_take_line_rest_len(s: Seq<char>)
    ensures
        take_line(s).1.len() <= s.len(),
    decreases s.len(),
{
    if s.len() > 0 && s[0] != '\n' {
        lemma_take_line_rest_len(s.drop_first());
    }
}

/// The entries read from the text after the header, if the whole text is
/// well-formed.
pub open spec fn parse_tail(s: Seq<char>) -> Option<Seq<(Seq<char>, u32)>>
    decreases s.len(),
    via parse_tail_decreases
{
    if s.len() == 0 {
        Some(Seq::empty())
    } else if s[0] != '\n' {
        None
    } else {
        let split = take_line(s.drop_first());
        match parse_line(split.0) {
            None => None,
            Some(kw) => match parse_tail(split.1) {
                None => None,
                Some(rest) => Some(seq![kw] + rest),
            },
        }
    }
}

#[via_fn]
proof fn parse_tail_decreases(s: Seq<char>) {
    if s.len() > 0 && s[0] == '\n' {
        lemma_take_line_rest_len(s.drop_first());
    }
}

/// The entries encoded by a document text, if it is well-formed: a `---`
/// header followed by the entry lines.
pub open spec fn parse_document(s: Seq<char>) -> Option<Seq<(Seq<char>, u32)>> {
    if s.len() >= 3 && s.subrange(0, 3) == header() {
        parse_tail(s.skip(3))
    } else {
        None
    }
}

/// Where the separator and the digits stand inside a rendered line.
pub proof fn lemma_line_shape(k: Seq<char>, w: u32)
    ensures
        ({
            let l = line_of(k, w);
            let d = digits_of(w as nat);
            &&& l.len() == k.len() + 2 + d.len()
            &&& d.len() >= 1
            &&& l[k.len() as int] == ':'
            &&& l[k.len() as int + 1] == ' '
            &&& forall|i: int| 0 <= i < k.len() ==> #[trigger] l[i] == k[i]
            &&& forall|i: int|
                k.len() + 2 <= i < l.len() ==> #[trigger] l[i] == d[i - k.len() - 2] && is_digit(
                    l[i],
                )
            &&& forall|p: int|
                k.len() < p && p + 1 < l.len() ==> !(#[trigger] l[p] == ':' && l[p + 1] == ' ')
        }),
{
    let l = line_of(k, w);
    let d = digits_of(w as nat);
    lemma_digits_of_canonical(w as nat);
    assert(forall|i: int|
        k.len() + 2 <= i < l.len() ==> #[trigger] l[i] == d[i - k.len() - 2] && is_digit(l[i]));
    assert forall|p: int| k.len() < p && p + 1 < l.len() implies !(#[trigger] l[p] == ':' && l[p
        + 1] == ' ') by {
        if p == k.len() + 1 {
            assert(l[p] == ' ');
        } else {
            assert(is_digit(l[p]));
        }
    }
}

/// A rendered line contains no newline when its key contains none.
pub proof fn lemma_line_safe(k: Seq<char>, w: u32)
    requires
        line_safe(k),
    ensures
        line_safe(line_of(k, w)),
{
    let l = line_of(k, w);
    lemma_line_shape(k, w);
    assert forall|i: int| 0 <= i < l.len() implies #[trigger] l[i] != '\n' by {
        if i < k.len() {
            assert(l[i] == k[i]);
        } else if i == k.len() {
            assert(l[i] == ':');
        } else if i == k.len() + 1 {
            assert(l[i] == ' ');
        } else {
            assert(is_digit(l[i]));
        }
    }
}

/// Within a rendered line, the separator position determines the key length.
pub proof fn lemma_sep_position(k: Seq<char>, w: u32, x: int)
    requires
        0 <= x,
        x + 1 < line_of(k, w).len(),
        line_of(k, w)[x] == ':',
        line_of(k, w)[x + 1] == ' ',
        forall|q: int|
            x < q && q + 1 < line_of(k, w).len() ==> !(#[trigger] line_of(k, w)[q] == ':'
                && line_of(k, w)[q + 1] == ' '),
    ensures
        x == k.len(),
{
    lemma_line_shape(k, w);
}

/// Two entries that render to the same line are the same entry.
pub proof fn lemma_line_of_injective(k1: Seq<char>, w1: u32, k2: Seq<char>, w2: u32)
    requires
        line_of(k1, w1) == line_of(k2, w2),
    ensures
        k1 == k2,
        w1 == w2,
{
    let l = line_of(k1, w1);
    lemma_line_shape(k1, w1);
    lemma_line_shape(k2, w2);
    if k1.len() < k2.len() {
        assert(l[k2.len() as int] == ':' && l[k2.len() as int + 1] == ' ');
        assert(false);
    } else if k2.len() < k1.len() {
        assert(l[k1.len() as int] == ':' && l[k1.len() as int + 1] == ' ');
        assert(false);
    }
    assert forall|i: int| 0 <= i < k1.len() implies #[trigger] k1[i] == k2[i] by {
        assert(l[i] == k1[i]);
        assert(line_of(k2, w2)[i] == k2[i]);
    }
    assert(k1 =~= k2);
    let d1 = digits_of(w1 as nat);
    let d2 = digits_of(w2 as nat);
    assert(d1 =~= d2) by {
        assert(forall|i: int| 0 <= i < d1.len() ==> #[trigger] d1[i] == l[k1.len() + 2 + i]);
        assert(forall|i: int| 0 <= i < d2.len() ==> #[trigger] d2[i] == l[k1.len() + 2 + i]);
    }
    lemma_digits_of_value(w1 as nat);
    lemma_digits_of_value(w2 as nat);
}

/// Reading a rendered line gives the entry back.
pub proof fn lemma_parse_line_of(k: Seq<char>, w: u32)
    ensures
        parse_line(line_of(k, w)) == Some((k, w)),
{
    let l = line_of(k, w);
    assert(line_ok(l)) by {
        assert(l == line_of((k, w).0, (k, w).1));
    }
    let kw = choose|kw: (Seq<char>, u32)| l == #[trigger] line_of(kw.0, kw.1);
    lemma_line_of_injective(kw.0, kw.1, k, w);
}

/// Splitting a newline-free line off the front of a text recovers the line.
pub proof fn lemma_take_line_concat(l: Seq<char>, r: Seq<char>)
    requires
        line_safe(l),
        r.len() == 0 || r[0] == '\n',
    ensures
        take_line(l + r) == (l, r),
    decreases l.len(),
{
    if l.len() == 0 {
        assert(l + r =~= r);
        if r.len() == 0 {
            assert(take_line(l + r).0 =~= l);
            assert(take_line(l + r).1 =~= r);
        } else {
            assert(take_line(l + r).0 =~= l);
        }
    } else {
        assert((l + r)[0] == l[0]);
        assert(l[0] != '\n');
        assert((l + r).drop_first() =~= l.drop_first() + r);
        assert(line_safe(l.drop_first())) by {
            assert(forall|i: int|
                0 <= i < l.drop_first().len() ==> #[trigger] l.drop_first()[i] == l[i + 1]);
        }
        lemma_take_line_concat(l.drop_first(), r);
        assert(take_line(l + r).0 =~= seq![l[0]] + l.drop_first());
        assert(seq![l[0]] + l.drop_first() =~= l);
    }
}

/// Appending one entry appends one line to the rendered tail.
pub proof fn lemma_doc_tail_push(es: Seq<(Seq<char>, u32)>, e: (Seq<char>, u32))
    ensures
        doc_tail(es.push(e)) == doc_tail(es) + seq!['\n'] + line_of(e.0, e.1),
    decreases es.len(),
{
    if es.len() == 0 {
        assert(es.push(e)[0] == e);
        assert(es.push(e).drop_first() =~= Seq::<(Seq<char>, u32)>::empty());
        assert(doc_tail(Seq::<(Seq<char>, u32)>::empty()) == Seq::<char>::empty());
        assert(doc_tail(es.push(e)) == seq!['\n'] + line_of(e.0, e.1) + doc_tail(
            Seq::<(Seq<char>, u32)>::empty(),
        ));
        assert(doc_tail(es) == Seq::<char>::empty());
        assert(doc_tail(es.push(e)) =~= doc_tail(es) + seq!['\n'] + line_of(e.0, e.1));
    } else {
        assert(es.push(e)[0] == es[0]);
        assert(es.push(e).drop_first() =~= es.drop_first().push(e));
        lemma_doc_tail_push(es.drop_first(), e);
        assert(doc_tail(es.push(e)) == seq!['\n'] + line_of(es[0].0, es[0].1) + doc_tail(
            es.drop_first().push(e),
        ));
        assert(doc_tail(es) == seq!['\n'] + line_of(es[0].0, es[0].1) + doc_tail(es.drop_first()));
        assert(doc_tail(es.push(e)) =~= doc_tail(es) + seq!['\n'] + line_of(e.0, e.1));
    }
}

/// Reading the rendered tail gives the entries back.
pub proof fn lemma_parse_tail_round_trip(es: Seq<(Seq<char>, u32)>)
    requires
        entries_line_safe(es),
    ensures
        parse_tail(doc_tail(es)) == Some(es),
    decreases es.len(),
{
    if es.len() == 0 {
        assert(parse_tail(doc_tail(es)) == Some(Seq::<(Seq<char>, u32)>::empty()));
        assert(es =~= Seq::<(Seq<char>, u32)>::empty());
    } else {
        let line = line_of(es[0].0, es[0].1);
        let tail = doc_tail(es.drop_first());
        let s = doc_tail(es);
        assert(s == seq!['\n'] + line + tail);
        assert(s[0] == '\n');
        assert(s.len() > 0);
        assert(s.drop_first() =~= line + tail);
        assert(line_safe(es[0].0));
        lemma_line_safe(es[0].0, es[0].1);
        assert(tail.len() == 0 || tail[0] == '\n') by {
            if es.drop_first().len() > 0 {
                assert(tail[0] == '\n');
            }
        }
        lemma_take_line_concat(line, tail);
        lemma_parse_line_of(es[0].0, es[0].1);
        assert((es[0].0, es[0].1) == es[0]);
        assert(entries_line_safe(es.drop_first())) by {
            assert(forall|i: int|
                0 <= i < es.drop_first().len() ==> #[trigger] es.drop_first()[i] == es[i + 1]);
        }
        lemma_parse_tail_round_trip(es.drop_first());
        assert(seq![es[0]] + es.drop_first() =~= es);
    }
}

/// Reading a rendered document gives the entries back: writing a store and
/// reading the document again is the identity on entry sequences whose keys
/// fit on one line.
pub proof fn lemma_document_round_trip(es: Seq<(Seq<char>, u32)>)
    requires
        entries_line_safe(es),
    ensures
        parse_document(document_of(es)) == Some(es),
{
    let s = document_of(es);
    assert(s.len() >= 3);
    assert(s.subrange(0, 3) =~= header());
    assert(s.skip(3) =~= doc_tail(es));
    lemma_parse_tail_round_trip(es);
}

/// Renders the entries as a document text.
pub fn encode_document(entries: &Vec<(String, u32)>) -> (r: String)
    ensures
        r@ == document_of(entry_views(entries@)),
{
    let mut out = String::new();
    push_char(&mut out, '-');
    push_char(&mut out, '-');
    push_char(&mut out, '-');
    proof {
        assert(out@ =~= header() + doc_tail(entry_views(entries@).subrange(0, 0)));
    }
    let n = entries.len();
    let mut i: usize = 0;
    while i < n
        invariant
            i <= n,
            n == entries@.len(),
            out@ == header() + doc_tail(entry_views(entries@).subrange(0, i as int)),
        decreases n - i,
    {
        let ghost views = entry_views(entries@);
        push_char(&mut out, '\n');
        let pair: &(String, u32) = &entries[i];
        out.append(pair.0.as_str());
        push_char(&mut out, ':');
        push_char(&mut out, ' ');
        push_decimal(&mut out, pair.1);
        proof {
            lemma_doc_tail_push(views.subrange(0, i as int), views[i as int]);
            assert(views.subrange(0, i as int).push(views[i as int]) =~= views.subrange(
                0,
                i as int + 1,
            ));
            assert(out@ =~= header() + doc_tail(views.subrange(0, i as int + 1)));
        }
        i = i + 1;
    }
    proof {
        assert(entry_views(entries@).subrange(0, n as int) =~= entry_views(entries@));
    }
    out
}

/// Reads one entry line standing at `[from, to)` of `s`.
fn parse_line_range(s: &str, from: usize, to: usize) -> (r: Option<(String, u32)>)
    requires
        from <= to <= s@.len(),
    ensures
        ({
            let line = s@.subrange(from as int, to as int);
            match r {
                Some(p) => parse_line(line) == Some((p.0@, p.1)),
                None => parse_line(line) is None,
            }
        }),
{
    let ghost line = s@.subrange(from as int, to as int);
    let mut found = false;
    let mut p: usize = 0;
    let mut i = from;
    while i < to && i + 1 < to
        invariant
            from <= i,
            i <= to <= s@.len(),
            to - from == line.len(),
            line == s@.subrange(from as int, to as int),
            forall|x: int| 0 <= x < line.len() ==> #[trigger] line[x] == s@[from + x],
            found ==> from <= p && p + 1 < to && s@[p as int] == ':' && s@[p + 1] == ' ',
            found ==> forall|q: int|
                p < q && q + 1 < to && q < i ==> !(#[trigger] s@[q] == ':' && s@[q + 1] == ' '),
            !found ==> forall|q: int|
                from <= q && q + 1 < to && q < i ==> !(#[trigger] s@[q] == ':' && s@[q + 1]
                    == ' '),
        decreases to - i,
    {
        if s.get_char(i) == ':' && s.get_char(i + 1) == ' ' {
            found = true;
            p = i;
        }
        i = i + 1;
    }
    proof {
        assert(found ==> forall|q: int|
            p < q && q + 1 < to ==> !(#[trigger] s@[q] == ':' && s@[q + 1] == ' '));
        assert(!found ==> forall|q: int|
            from <= q && q + 1 < to ==> !(#[trigger] s@[q] == ':' && s@[q + 1] == ' '));
    }
    if !found {
        proof {
            if line_ok(line) {
                let kw = choose|kw: (Seq<char>, u32)| line == #[trigger] line_of(kw.0, kw.1);
                lemma_line_shape(kw.0, kw.1);
                let q = from + kw.0.len();
                assert(s@[q] == line[kw.0.len() as int] && s@[q + 1] == line[kw.0.len() as int + 1]);
                assert(false);
            }
        }
        return None;
    }
    // The separator found last is, for any reading of the line, the one that
    // was written: everything right of the written separator is digits.
    proof {
        if line_ok(line) {
            let kw = choose|kw: (Seq<char>, u32)| line == #[trigger] line_of(kw.0, kw.1);
            lemma_line_shape(kw.0, kw.1);
            assert(line[p - from] == ':' && line[p - from + 1] == ' ') by {
                assert(s@[p as int] == line[p - from]);
                assert(s@[p + 1] == line[p - from + 1]);
            }
            assert forall|q: int|
                (p - from) < q && q + 1 < line.len() implies !(#[trigger] line[q] == ':' && line[q
                + 1] == ' ') by {
                assert(line[q] == s@[from + q] && line[q + 1] == s@[from + q + 1]);
            }
            lemma_sep_position(kw.0, kw.1, p - from);
            assert(p - from == kw.0.len());
        }
    }
    let ghost span = s@.subrange(p + 2, to as int);
    proof {
        assert(span =~= line.subrange(p - from + 2, line.len() as int));
        if line_ok(line) {
            let kw = choose|kw: (Seq<char>, u32)| line == #[trigger] line_of(kw.0, kw.1);
            lemma_line_shape(kw.0, kw.1);
            assert(span =~= digits_of(kw.1 as nat)) by {
                assert(forall|x: int|
                    0 <= x < span.len() ==> #[trigger] span[x] == line[p - from + 2 + x]);
            }
            lemma_digits_of_canonical(kw.1 as nat);
            lemma_digits_of_value(kw.1 as nat);
        }
    }
    match parse_digits_range(s, p + 2, to) {
        None => {
            proof {
                if line_ok(line) {
                    assert(false);
                }
            }
            None
        },
        Some(w0) => {
            if to - p > 3 && s.get_char(p + 2) == '0' {
                // A multi-digit weight never starts with zero.
                proof {
                    if line_ok(line) {
                        let kw = choose|kw: (Seq<char>, u32)| line == #[trigger] line_of(
                            kw.0,
                            kw.1,
                        );
                        assert(span[0] == '0' && span.len() > 1);
                        assert(canonical_digits(digits_of(kw.1 as nat)));
                        assert(false);
                    }
                }
                return None;
            }
            let key_slice = s.substring_char(from, p);
            let key = key_slice.to_owned();
            proof {
                assert(canonical_digits(span));
                lemma_value_of_canonical(span);
                assert(span == digits_of(w0 as nat));
                assert(line =~= key@ + separator() + digits_of(w0 as nat)) by {
                    assert(key@ =~= line.subrange(0, p - from));
                    assert(line[p - from] == ':' && line[p - from + 1] == ' ');
                    assert(forall|x: int|
                        0 <= x < span.len() ==> #[trigger] span[x] == line[p - from + 2 + x]);
                }
                assert(line == line_of(key@, w0));
                lemma_parse_line_of(key@, w0);
            }
            Some((key, w0))
        },
    }
}

/// Reads a document text, giving the entries it encodes, or nothing when the
/// text is not the rendering of any entry sequence.
pub fn decode_document(s: &str) -> (r: Option<Vec<(String, u32)>>)
    ensures
        match r {
            Some(es) => parse_document(s@) == Some(entry_views(es@)),
            None => parse_document(s@) is None,
        },
{
    let len = s.unicode_len();
    if len < 3 {
        return None;
    }
    if s.get_char(0) != '-' || s.get_char(1) != '-' || s.get_char(2) != '-' {
        proof {
            if s@.subrange(0, 3) == header() {
                assert(s@[0] == s@.subrange(0, 3)[0]);
                assert(s@[1] == s@.subrange(0, 3)[1]);
                assert(s@[2] == s@.subrange(0, 3)[2]);
            }
        }
        return None;
    }
    proof {
        assert(s@.subrange(0, 3) =~= header());
    }
    let mut out: Vec<(String, u32)> = Vec::new();
    let mut pos: usize = 3;
    loop
        invariant
            3 <= pos <= len,
            len == s@.len(),
            s@.subrange(0, 3) == header(),
            parse_document(s@) == (match parse_tail(s@.skip(pos as int)) {
                None => None::<Seq<(Seq<char>, u32)>>,
                Some(t) => Some(entry_views(out@) + t),
            }),
        decreases len - pos,
    {
        if pos == len {
            proof {
                assert(s@.skip(pos as int) =~= Seq::<char>::empty());
                assert(entry_views(out@) + Seq::<(Seq<char>, u32)>::empty() =~= entry_views(
                    out@,
                ));
            }
            return Some(out);
        }
        let c = s.get_char(pos);
        proof {
            assert(s@.skip(pos as int)[0] == s@[pos as int]);
            assert(s@.skip(pos as int).len() > 0);
        }
        if c != '\n' {
            return None;
        }
        let mut j = pos + 1;
        while j < len && s.get_char(j) != '\n'
            invariant
                pos + 1 <= j <= len,
                len == s@.len(),
                forall|t: int| pos + 1 <= t < j ==> #[trigger] s@[t] != '\n',
            decreases len - j,
        {
            j = j + 1;
        }
        let ghost line = s@.subrange(pos + 1, j as int);
        proof {
            assert(line_safe(line)) by {
                assert(forall|x: int| 0 <= x < line.len() ==> #[trigger] line[x] == s@[pos + 1 + x]);
            }
            assert(s@.skip(j as int).len() == 0 || s@.skip(j as int)[0] == '\n');
            lemma_take_line_concat(line, s@.skip(j as int));
            assert(line + s@.skip(j as int) =~= s@.skip(pos + 1));
            assert(s@.skip(pos as int).drop_first() =~= s@.skip(pos + 1));
            assert(take_line(s@.skip(pos as int).drop_first()) == (line, s@.skip(j as int)));
        }
        match parse_line_range(s, pos + 1, j) {
            None => {
                return None;
            },
            Some(entry) => {
                let ghost old_out = out@;
                out.push(entry);
                proof {
                    assert(entry_views(out@) =~= entry_views(old_out).push((entry.0@, entry.1)));
                    assert(forall|t: Seq<(Seq<char>, u32)>|
                        entry_views(old_out).push((entry.0@, entry.1)) + t =~= entry_views(old_out)
                            + (seq![(entry.0@, entry.1)] + t));
                }
                pos = j;
            },
        }
    }
}

} // verus!
