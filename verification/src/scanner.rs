//! The reference scanner: finds every non-overlapping occurrence of a literal
//! prefix immediately followed by a maximal run of decimal digits, collapses
//! the matches to one entry per numeric id, and returns them sorted by
//! ascending id.

use vstd::prelude::*;

verus! {

/// One extracted issue reference: the numeric id of the issue and the exact
/// text of the occurrence that produced it.
#[derive(Debug)]
pub struct IssueReference {
    pub numeric_id: u32,
    pub matched_text: String,
}

impl View for IssueReference {
    type V = (u32, Seq<char>);

    open spec fn view(&self) -> (u32, Seq<char>) {
        (self.numeric_id, self.matched_text@)
    }
}

/// The one failure the scanner can report: a digit run whose value does not
/// fit in 32 unsigned bits.
#[derive(Debug, PartialEq, Eq, Structural)]
pub enum ScanError {
    Overflow,
}

/// A decimal digit.
pub open spec fn is_decimal_digit(c: char) -> bool {
    '0' <= c && c <= '9'
}

/// The value of a run of decimal digits, most significant digit first.
pub open spec fn digits_value(s: Seq<char>) -> int
    decreases s.len(),
{
    if s.len() == 0 {
        0
    } else {
        digits_value(s.drop_last()) * 10 + (s.last() as int - '0' as int)
    }
}

/// The prefix occurs at position `i` of `text` and a decimal digit follows it.
pub open spec fn match_at(prefix: Seq<char>, text: Seq<char>, i: int) -> bool {
    &&& 0 <= i
    &&& i + prefix.len() < text.len()
    &&& text.subrange(i, i + prefix.len() as int) == prefix
    &&& is_decimal_digit(text[i + prefix.len()])
}

/// The first position at or after `j` that is past the end of `text` or does
/// not hold a decimal digit: the end of the maximal digit run starting at `j`.
pub open spec fn digit_run_end(text: Seq<char>, j: int) -> int
    decreases text.len() - j,
{
    if j < 0 || j >= text.len() || !is_decimal_digit(text[j]) {
        j
    } else {
        digit_run_end(text, j + 1)
    }
}

/// The spans `(start, end)` of every match of `<prefix><digits>` in `text` at
/// or after position `p`, in text order, non-overlapping, each digit run
/// maximal: the next span is sought from the end of the previous one.
pub open spec fn raw_spans(prefix: Seq<char>, text: Seq<char>, p: int) -> Seq<(int, int)>
    decreases text.len() - p,
    via raw_spans_decreases
{
    if p >= text.len() {
        Seq::empty()
    } else if match_at(prefix, text, p) {
        let e = digit_run_end(text, p + prefix.len() as int);
        seq![(p, e)] + raw_spans(prefix, text, e)
    } else {
        raw_spans(prefix, text, p + 1)
    }
}

#[via_fn]
proof fn raw_spans_decreases(prefix: Seq<char>, text: Seq<char>, p: int) {
    if p < text.len() && match_at(prefix, text, p) {
        lemma_digit_run_end(text, p + prefix.len() as int);
    }
}

/// The matched text of a span.
pub open spec fn span_text(text: Seq<char>, s: (int, int)) -> Seq<char> {
    text.subrange(s.0, s.1)
}

/// The numeric id of a span: the value of its digit run.
pub open spec fn span_id(prefix: Seq<char>, text: Seq<char>, s: (int, int)) -> int {
    digits_value(text.subrange(s.0 + prefix.len() as int, s.1))
}

/// Some span of the text holds a digit run whose value exceeds `u32::MAX`;
/// exactly then the scan fails with `ScanError::Overflow`.
pub open spec fn some_span_overflows(prefix: Seq<char>, text: Seq<char>) -> bool {
    exists|k: int|
        0 <= k < raw_spans(prefix, text, 0).len() && span_id(
            prefix,
            text,
            raw_spans(prefix, text, 0)[k],
        ) > u32::MAX
}

/// `entry` is drawn from one of `spans`: its id is that span's digit-run
/// value and its text is that span's matched text.
pub open spec fn entry_from_spans(
    prefix: Seq<char>,
    text: Seq<char>,
    spans: Seq<(int, int)>,
    entry: (u32, Seq<char>),
) -> bool {
    exists|k: int|
        0 <= k < spans.len() && entry.0 as int == span_id(prefix, text, #[trigger] spans[k])
            && entry.1 == span_text(text, spans[k])
}

/// The numeric id of `span` appears among the entries of `out`.
pub open spec fn span_id_in_entries(
    prefix: Seq<char>,
    text: Seq<char>,
    span: (int, int),
    out: Seq<(u32, Seq<char>)>,
) -> bool {
    exists|i: int| 0 <= i < out.len() && (#[trigger] out[i]).0 as int == span_id(prefix, text, span)
}

/// What a successful scan returns: `out` is strictly ascending by numeric id,
/// every entry's id and text come from a span of the text, and every span's
/// id appears in `out`.
pub open spec fn scan_post(prefix: Seq<char>, text: Seq<char>, out: Seq<(u32, Seq<char>)>) -> bool {
    let spans = raw_spans(prefix, text, 0);
    &&& forall|i: int, j: int| 0 <= i < j < out.len() ==> out[i].0 < out[j].0
    &&& forall|i: int|
        0 <= i < out.len() ==> entry_from_spans(prefix, text, spans, #[trigger] out[i])
    &&& forall|k: int|
        0 <= k < spans.len() ==> span_id_in_entries(prefix, text, #[trigger] spans[k], out)
}

/// The end of a digit run lies between its start and the end of the text,
/// everything before it is a digit, and it is the text's end or a non-digit.
pub proof fn lemma_digit_run_end(text: Seq<char>, j: int)
    requires
        0 <= j <= text.len(),
    ensures
        j <= digit_run_end(text, j) <= text.len(),
        forall|k: int| j <= k < digit_run_end(text, j) ==> is_decimal_digit(text[k]),
        digit_run_end(text, j) == text.len() || !is_decimal_digit(text[digit_run_end(text, j)]),
        j < text.len() && is_decimal_digit(text[j]) ==> digit_run_end(text, j) > j,
    decreases text.len() - j,
{
    if j < text.len() && is_decimal_digit(text[j]) {
        lemma_digit_run_end(text, j + 1);
    }
}

/// A well-formed span: it starts at a match of the prefix, ends at the end
/// of the maximal digit run after the prefix, and lies within the text.
pub open spec fn span_wf(prefix: Seq<char>, text: Seq<char>, s: (int, int)) -> bool {
    &&& match_at(prefix, text, s.0)
    &&& s.1 == digit_run_end(text, s.0 + prefix.len() as int)
    &&& s.0 + prefix.len() < s.1 <= text.len()
    &&& forall|k: int| s.0 + prefix.len() <= k < s.1 ==> is_decimal_digit(text[k])
}

/// Every span the scan finds is well formed.
pub proof fn lemma_raw_spans_wf(prefix: Seq<char>, text: Seq<char>, p: int)
    requires
        0 <= p,
    ensures
        forall|k: int|
            0 <= k < raw_spans(prefix, text, p).len() ==> span_wf(
                prefix,
                text,
                #[trigger] raw_spans(prefix, text, p)[k],
            ),
    decreases text.len() - p,
{
    if p >= text.len() {
    } else if match_at(prefix, text, p) {
        let e = digit_run_end(text, p + prefix.len() as int);
        lemma_digit_run_end(text, p + prefix.len() as int);
        lemma_raw_spans_wf(prefix, text, e);
        assert forall|k: int| 0 <= k < raw_spans(prefix, text, p).len() implies span_wf(
            prefix,
            text,
            #[trigger] raw_spans(prefix, text, p)[k],
        ) by {
            if k == 0 {
                assert(raw_spans(prefix, text, p)[0] == (p, e));
            } else {
                assert(raw_spans(prefix, text, p)[k] == raw_spans(prefix, text, e)[k - 1]);
            }
        }
    } else {
        lemma_raw_spans_wf(prefix, text, p + 1);
        assert(raw_spans(prefix, text, p) == raw_spans(prefix, text, p + 1));
    }
}

/// The value of an all-digit run is not negative.
pub proof fn lemma_digits_value_nonneg(s: Seq<char>)
    requires
        forall|k: int| 0 <= k < s.len() ==> is_decimal_digit(s[k]),
    ensures
        digits_value(s) >= 0,
    decreases s.len(),
{
    if s.len() > 0 {
        lemma_digits_value_nonneg(s.drop_last());
    }
}

/// Appending further digits to an all-digit run never lowers its value.
pub proof fn lemma_digits_value_extend(s: Seq<char>, t: Seq<char>)
    requires
        forall|k: int| 0 <= k < s.len() ==> is_decimal_digit(s[k]),
        forall|k: int| 0 <= k < t.len() ==> is_decimal_digit(t[k]),
    ensures
        digits_value(s + t) >= digits_value(s),
    decreases t.len(),
{
    if t.len() == 0 {
        assert(s + t =~= s);
    } else {
        lemma_digits_value_extend(s, t.drop_last());
        assert((s + t).drop_last() =~= s + t.drop_last());
        assert(forall|k: int|
            0 <= k < (s + t.drop_last()).len() ==> is_decimal_digit((s + t.drop_last())[k]));
        lemma_digits_value_nonneg(s + t.drop_last());
        assert((s + t).last() == t.last());
        assert(digits_value(s + t) == digits_value(s + t.drop_last()) * 10 + (t.last() as int
            - '0' as int));
    }
}

/// The text of an extracted reference starts with the prefix and continues
/// with at least one decimal digit.
pub open spec fn reference_shape(prefix: Seq<char>, entry: (u32, Seq<char>)) -> bool {
    &&& entry.1.len() > prefix.len()
    &&& entry.1.subrange(0, prefix.len() as int) == prefix
    &&& is_decimal_digit(entry.1[prefix.len() as int])
}

fn is_digit_char(c: char) -> (b: bool)
    ensures
        b == is_decimal_digit(c),
{
    c >= '0' && c <= '9'
}

/// The characters of `s`, one vector element per character.
fn chars_of(s: &str) -> (v: Vec<char>)
    ensures
        v@ == s@,
{
    let n = s.unicode_len();
    let mut v: Vec<char> = Vec::new();
    let mut i: usize = 0;
    while i < n
        invariant
            i <= n,
            n == s@.len(),
            v@ == s@.subrange(0, i as int),
        decreases n - i,
    {
        v.push(s.get_char(i));
        proof {
            assert(s@.subrange(0, i + 1 as int) =~= s@.subrange(0, i as int).push(s@[i as int]));
        }
        i = i + 1;
    }
    proof {
        assert(v@ =~= s@);
    }
    v
}

/// Whether the characters of `pre` stand at position `p` of `t`.
fn prefix_at(pre: &Vec<char>, t: &Vec<char>, p: usize) -> (b: bool)
    requires
        p + pre@.len() <= t@.len(),
    ensures
        b == (t@.subrange(p as int, p as int + pre@.len() as int) == pre@),
{
    let m = pre.len();
    let tn = t.len();
    let mut j: usize = 0;
    while j < m
        invariant
            j <= m,
            m == pre@.len(),
            tn == t@.len(),
            p + m <= tn,
            forall|k: int| 0 <= k < j ==> t@[p as int + k] == pre@[k],
        decreases m - j,
    {
        if t[p + j] != pre[j] {
            proof {
                assert(t@.subrange(p as int, p as int + m as int)[j as int] == t@[p as int
                    + j as int]);
            }
            return false;
        }
        j = j + 1;
    }
    proof {
        assert(t@.subrange(p as int, p as int + m as int) =~= pre@);
    }
    true
}

/// The end of the maximal digit run of `t` starting at `j0`.
fn find_digit_run_end(t: &Vec<char>, j0: usize) -> (e: usize)
    requires
        j0 <= t@.len(),
    ensures
        e as int == digit_run_end(t@, j0 as int),
        j0 <= e <= t@.len(),
{
    let n = t.len();
    let mut e = j0;
    while e < n && is_digit_char(t[e])
        invariant
            j0 <= e <= n,
            n == t@.len(),
            digit_run_end(t@, j0 as int) == digit_run_end(t@, e as int),
        decreases n - e,
    {
        proof {
            assert(digit_run_end(t@, e as int) == digit_run_end(t@, e + 1 as int));
        }
        e = e + 1;
    }
    proof {
        assert(digit_run_end(t@, e as int) == e as int);
    }
    e
}

/// The value of the digit run `t[j0..e]` as a 32-bit id, or `None` when it
/// exceeds `u32::MAX`.
fn parse_run_value(t: &Vec<char>, j0: usize, e: usize) -> (r: Option<u32>)
    requires
        j0 <= e <= t@.len(),
        forall|k: int| j0 <= k < e ==> is_decimal_digit(t@[k]),
    ensures
        r matches Some(v) ==> v as int == digits_value(t@.subrange(j0 as int, e as int)),
        r is None ==> digits_value(t@.subrange(j0 as int, e as int)) > u32::MAX,
{
    let mut acc: u64 = 0;
    let mut j = j0;
    while j < e
        invariant
            j0 <= j <= e <= t@.len(),
            forall|k: int| j0 <= k < e ==> is_decimal_digit(t@[k]),
            acc as int == digits_value(t@.subrange(j0 as int, j as int)),
            acc <= u32::MAX,
        decreases e - j,
    {
        let d: u32 = t[j] as u32 - 48;
        proof {
            assert(is_decimal_digit(t@[j as int]));
            assert(d as int == t@[j as int] as int - '0' as int);
        }
        let ghost run = t@.subrange(j0 as int, j as int);
        acc = acc * 10 + d as u64;
        proof {
            assert(t@.subrange(j0 as int, j + 1 as int) =~= run.push(t@[j as int]));
            assert(run.push(t@[j as int]).drop_last() =~= run);
            assert(run.push(t@[j as int]).last() == t@[j as int]);
            assert(digits_value(run.push(t@[j as int])) == digits_value(run) * 10 + (
            t@[j as int] as int - '0' as int));
        }
        j = j + 1;
        if acc > 0xFFFF_FFFF {
            proof {
                let run = t@.subrange(j0 as int, j as int);
                let rest = t@.subrange(j as int, e as int);
                assert(run + rest =~= t@.subrange(j0 as int, e as int));
                lemma_digits_value_extend(run, rest);
            }
            return None;
        }
    }
    proof {
        assert(t@.subrange(j0 as int, j as int) =~= t@.subrange(j0 as int, e as int));
    }
    Some(acc as u32)
}

/// Insert `item` into `out`, which is strictly sorted by numeric id, keeping
/// it sorted; when the id is already present the item is dropped. Returns
/// the position of the id and whether the item was inserted.
fn insert_reference(out: &mut Vec<IssueReference>, item: IssueReference) -> (res: (usize, bool))
    requires
        forall|i: int, j: int| 0 <= i < j < old(out)@.len() ==> old(out)@[i]@.0 < old(out)@[j]@.0,
    ensures
        forall|i: int, j: int|
            0 <= i < j < final(out)@.len() ==> final(out)@[i]@.0 < final(out)@[j]@.0,
        res.1 ==> res.0 <= old(out)@.len() && final(out)@ == old(out)@.insert(
            res.0 as int,
            item,
        ),
        !res.1 ==> final(out)@ == old(out)@ && res.0 < old(out)@.len()
            && final(out)@[res.0 as int]@.0 == item@.0,
{
    let id = item.numeric_id;
    let ghost old_out = out@;
    let mut pos: usize = 0;
    while pos < out.len() && out[pos].numeric_id < id
        invariant
            pos <= out@.len(),
            out@ == old_out,
            id == item@.0,
            forall|i: int| 0 <= i < pos ==> out@[i]@.0 < id,
            forall|i: int, j: int| 0 <= i < j < out@.len() ==> out@[i]@.0 < out@[j]@.0,
        decreases out@.len() - pos,
    {
        pos = pos + 1;
    }
    if pos < out.len() && out[pos].numeric_id == id {
        return (pos, false);
    }
    proof {
        old_out.insert_ensures(pos as int, item);
    }
    out.insert(pos, item);
    proof {
        assert(out@[pos as int]@ == item@);
        assert forall|i: int, j: int| 0 <= i < j < out@.len() implies out@[i]@.0 < out@[j]@.0 by {
            if j == pos {
                assert(out@[i]@ == old_out[i]@);
            } else if j > pos {
                assert(out@[j]@ == old_out[j - 1]@);
                if i < pos {
                    assert(out@[i]@ == old_out[i]@);
                    if i < j - 1 {
                        assert(old_out[i]@.0 < old_out[j - 1]@.0);
                    }
                } else if i == pos {
                    assert(pos < old_out.len() ==> old_out[pos as int]@.0 > id);
                    if j - 1 > pos {
                        assert(old_out[pos as int]@.0 < old_out[j - 1]@.0);
                    }
                } else {
                    assert(out@[i]@ == old_out[i - 1]@);
                }
            }
        }
    }
    (pos, true)
}


/// Collect every raw match of `<prefix><digits>` in `text`, in text order,
/// one reference per span and possibly with repeated ids; a digit run whose
/// value does not fit in a `u32` fails with `ScanError::Overflow`.
fn collect_raw(prefix: &str, text: &str) -> (r: Result<Vec<IssueReference>, ScanError>)
    ensures
        r matches Ok(v) ==> v@.len() == raw_spans(prefix@, text@, 0).len(),
        r matches Ok(v) ==> forall|k: int|
            0 <= k < v@.len() ==> (#[trigger] v@[k])@.0 as int == span_id(
                prefix@,
                text@,
                raw_spans(prefix@, text@, 0)[k],
            ) && v@[k]@.1 == span_text(text@, raw_spans(prefix@, text@, 0)[k]),
        r is Err <==> some_span_overflows(prefix@, text@),
        r matches Err(e) ==> e == ScanError::Overflow,
{
    let pre = chars_of(prefix);
    let t = chars_of(text);
    let n = t.len();
    let m = pre.len();
    let mut v: Vec<IssueReference> = Vec::new();
    let mut p: usize = 0;
    let ghost spans0 = raw_spans(pre@, t@, 0);
    let ghost mut done: Seq<(int, int)> = Seq::empty();
    proof {
        assert(spans0 =~= done + raw_spans(pre@, t@, 0));
    }
    while p < n
        invariant
            p <= n,
            n == t@.len(),
            m == pre@.len(),
            t@ == text@,
            pre@ == prefix@,
            spans0 == raw_spans(pre@, t@, 0),
            spans0 == done + raw_spans(pre@, t@, p as int),
            v@.len() == done.len(),
            forall|k: int|
                0 <= k < done.len() ==> (#[trigger] v@[k])@.0 as int == span_id(
                    pre@,
                    t@,
                    done[k],
                ) && v@[k]@.1 == span_text(t@, done[k]),
        decreases n - p,
    {
        let is_match: bool = if m >= n - p {
            false
        } else if !prefix_at(&pre, &t, p) {
            false
        } else {
            is_digit_char(t[p + m])
        };
        proof {
            assert(is_match == match_at(pre@, t@, p as int));
        }
        if is_match {
            let e = find_digit_run_end(&t, p + m);
            proof {
                lemma_digit_run_end(t@, (p + m) as int);
            }
            let ghost sp = (p as int, e as int);
            proof {
                assert(raw_spans(pre@, t@, p as int) == seq![sp] + raw_spans(pre@, t@, e as int));
            }
            match parse_run_value(&t, p + m, e) {
                None => {
                    proof {
                        assert(spans0 == done + (seq![sp] + raw_spans(pre@, t@, e as int)));
                        assert(spans0[done.len() as int] == sp);
                        assert(span_id(pre@, t@, sp) > u32::MAX);
                        assert(some_span_overflows(pre@, t@));
                    }
                    return Err(ScanError::Overflow);
                },
                Some(id) => {
                    let matched = text.substring_char(p, e);
                    let item = IssueReference {
                        numeric_id: id,
                        matched_text: String::from_str(matched),
                    };
                    let ghost old_done = done;
                    v.push(item);
                    proof {
                        done = done + seq![sp];
                        assert(spans0 =~= done + raw_spans(pre@, t@, e as int));
                        assert forall|k: int|
                            0 <= k < done.len() implies (#[trigger] v@[k])@.0 as int == span_id(
                            pre@,
                            t@,
                            done[k],
                        ) && v@[k]@.1 == span_text(t@, done[k]) by {
                            if k < old_done.len() {
                                assert(done[k] == old_done[k]);
                            } else {
                                assert(done[k] == sp);
                                assert(v@[k]@ == (id, t@.subrange(p as int, e as int)));
                            }
                        }
                    }
                    p = e;
                },
            }
        } else {
            proof {
                assert(raw_spans(pre@, t@, p as int) == raw_spans(pre@, t@, p + 1 as int));
            }
            p = p + 1;
        }
    }
    proof {
        assert(raw_spans(pre@, t@, p as int) =~= Seq::<(int, int)>::empty());
        assert(spans0 =~= done);
        assert(!some_span_overflows(pre@, t@)) by {
            if some_span_overflows(pre@, t@) {
                let k = choose|k: int|
                    0 <= k < raw_spans(pre@, t@, 0).len() && span_id(
                        pre@,
                        t@,
                        raw_spans(pre@, t@, 0)[k],
                    ) > u32::MAX;
                assert(v@[k]@.0 as int == span_id(pre@, t@, done[k]));
            }
        }
    }
    Ok(v)
}

/// The reference `r` is one of `raws`: same id, same text.
pub open spec fn ref_drawn_from(raws: Seq<IssueReference>, r: IssueReference) -> bool {
    exists|k: int| 0 <= k < raws.len() && r@ == (#[trigger] raws[k])@
}

/// The id of `r` appears among the references of `outs`.
pub open spec fn ref_id_represented(outs: Seq<IssueReference>, r: IssueReference) -> bool {
    exists|i: int| 0 <= i < outs.len() && r@.0 == (#[trigger] outs[i])@.0
}

/// A fresh reference with the same id and the same text.
fn copy_reference(r: &IssueReference) -> (c: IssueReference)
    ensures
        c@ == r@,
{
    IssueReference {
        numeric_id: r.numeric_id,
        matched_text: String::from_str(r.matched_text.as_str()),
    }
}

/// Collapse `raw`, a sequence of references in text order, to one reference
/// per numeric id, sorted ascending: each returned reference is one of the
/// raw ones, and every raw id is represented.
fn dedup_sort(raw: &Vec<IssueReference>) -> (out: Vec<IssueReference>)
    ensures
        forall|i: int, j: int| 0 <= i < j < out@.len() ==> out@[i]@.0 < out@[j]@.0,
        forall|i: int| 0 <= i < out@.len() ==> ref_drawn_from(raw@, #[trigger] out@[i]),
        forall|k: int| 0 <= k < raw@.len() ==> ref_id_represented(out@, #[trigger] raw@[k]),
{
    let mut out: Vec<IssueReference> = Vec::new();
    let mut seen: usize = 0;
    let ghost mut src: Seq<int> = Seq::empty();
    let ghost mut rep: Seq<int> = Seq::empty();
    while seen < raw.len()
        invariant
            0 <= seen <= raw@.len(),
            forall|i: int, j: int| 0 <= i < j < out@.len() ==> out@[i]@.0 < out@[j]@.0,
            src.len() == out@.len(),
            forall|i: int|
                0 <= i < out@.len() ==> 0 <= #[trigger] src[i] < seen && out@[i]@
                    == raw@[src[i]]@,
            rep.len() == seen,
            forall|k: int|
                0 <= k < seen ==> 0 <= #[trigger] rep[k] < out@.len() && raw@[k]@.0
                    == out@[rep[k]]@.0,
        decreases raw@.len() - seen,
    {
        let item = copy_reference(&raw[seen]);
        let ghost itemv = item@;
        proof {
            assert(itemv == raw@[seen as int]@);
        }
        let ghost old_out = out@;
        let ghost old_src = src;
        let ghost old_rep = rep;
        let (pos, inserted) = insert_reference(&mut out, item);
        proof {
            let sn = seen as int;
            if inserted {
                src = old_src.insert(pos as int, sn);
                old_src.insert_ensures(pos as int, sn);
                rep = old_rep.map_values(
                    |x: int| if x < pos as int { x } else { x + 1 },
                ).push(pos as int);
                assert forall|i: int|
                    0 <= i < out@.len() implies 0 <= #[trigger] src[i] < sn + 1 && out@[i]@
                    == raw@[src[i]]@ by {
                    if i < pos {
                        assert(src[i] == old_src[i]);
                        assert(out@[i] == old_out[i]);
                    } else if i == pos {
                        assert(src[i] == sn);
                        assert(out@[i]@ == itemv);
                    } else {
                        assert(src[i] == old_src[i - 1]);
                        assert(out@[i] == old_out[i - 1]);
                    }
                }
                assert forall|k: int|
                    0 <= k < sn + 1 implies 0 <= #[trigger] rep[k] < out@.len() && raw@[k]@.0
                    == out@[rep[k]]@.0 by {
                    if k < sn {
                        assert(rep[k] == if old_rep[k] < pos as int {
                            old_rep[k]
                        } else {
                            old_rep[k] + 1
                        });
                        if old_rep[k] < pos as int {
                            assert(out@[rep[k]] == old_out[old_rep[k]]);
                        } else {
                            assert(out@[old_rep[k] + 1] == old_out[old_rep[k]]);
                        }
                    } else {
                        assert(rep[k] == pos as int);
                        assert(out@[pos as int]@ == itemv);
                    }
                }
            } else {
                rep = old_rep.push(pos as int);
                assert forall|k: int|
                    0 <= k < sn + 1 implies 0 <= #[trigger] rep[k] < out@.len() && raw@[k]@.0
                    == out@[rep[k]]@.0 by {
                    if k < sn {
                        assert(rep[k] == old_rep[k]);
                    } else {
                        assert(rep[k] == pos as int);
                        assert(out@[pos as int]@.0 == itemv.0);
                    }
                }
            }
        }
        seen = seen + 1;
    }
    proof {
        assert forall|i: int| 0 <= i < out@.len() implies ref_drawn_from(
            raw@,
            #[trigger] out@[i],
        ) by {
            let k0 = src[i];
            assert(0 <= k0 < raw@.len() && out@[i]@ == raw@[k0]@);
        }
        assert forall|k: int| 0 <= k < raw@.len() implies ref_id_represented(
            out@,
            #[trigger] raw@[k],
        ) by {
            let i0 = rep[k];
            assert(0 <= i0 < out@.len() && raw@[k]@.0 == out@[i0]@.0);
        }
    }
    out
}

/// The references that `dedup_sort` draws from well-formed raw matches make
/// a result that satisfies the scanner's postcondition, and each keeps the
/// prefix-digit shape.
#[verifier::rlimit(100)]
proof fn lemma_scan_compose(
    prefix: Seq<char>,
    text: Seq<char>,
    rawv: Seq<IssueReference>,
    outs: Seq<IssueReference>,
)
    requires
        rawv.len() == raw_spans(prefix, text, 0).len(),
        forall|k: int|
            0 <= k < rawv.len() ==> (#[trigger] rawv[k])@.0 as int == span_id(
                prefix,
                text,
                raw_spans(prefix, text, 0)[k],
            ) && rawv[k]@.1 == span_text(text, raw_spans(prefix, text, 0)[k]),
        forall|i: int, j: int| 0 <= i < j < outs.len() ==> outs[i]@.0 < outs[j]@.0,
        forall|i: int| 0 <= i < outs.len() ==> ref_drawn_from(rawv, #[trigger] outs[i]),
        forall|k: int| 0 <= k < rawv.len() ==> ref_id_represented(outs, #[trigger] rawv[k]),
    ensures
        scan_post(prefix, text, outs.map_values(|ir: IssueReference| ir@)),
        forall|i: int| 0 <= i < outs.len() ==> reference_shape(prefix, (#[trigger] outs[i])@),
{
    let spans = raw_spans(prefix, text, 0);
    let outv = outs.map_values(|ir: IssueReference| ir@);
    assert(outv.len() == outs.len());
    assert forall|i: int| 0 <= i < outv.len() implies #[trigger] outv[i] == outs[i]@ by {}
    assert forall|i: int|
        0 <= i < outv.len() implies entry_from_spans(prefix, text, spans, #[trigger] outv[i]) by {
        let k = choose|k: int| 0 <= k < rawv.len() && outs[i]@ == (#[trigger] rawv[k])@;
        assert(outv[i].0 as int == span_id(prefix, text, spans[k]));
        assert(outv[i].1 == span_text(text, spans[k]));
    }
    assert forall|k: int|
        0 <= k < spans.len() implies span_id_in_entries(prefix, text, #[trigger] spans[k], outv) by {
        assert(rawv[k]@.0 as int == span_id(prefix, text, spans[k]));
        let i = choose|i: int| 0 <= i < outs.len() && rawv[k]@.0 == (#[trigger] outs[i])@.0;
        assert(outv[i].0 as int == span_id(prefix, text, spans[k]));
    }
    assert(scan_post(prefix, text, outv));
    lemma_raw_spans_wf(prefix, text, 0);
    assert forall|i: int|
        0 <= i < outs.len() implies reference_shape(prefix, (#[trigger] outs[i])@) by {
        let k = choose|k: int| 0 <= k < rawv.len() && outs[i]@ == (#[trigger] rawv[k])@;
        let sp = spans[k];
        assert(span_wf(prefix, text, sp));
        assert(outs[i]@.1 == text.subrange(sp.0, sp.1));
        assert(text.subrange(sp.0, sp.1).subrange(0, prefix.len() as int) =~= text.subrange(
            sp.0,
            sp.0 + prefix.len() as int,
        ));
        assert(text.subrange(sp.0, sp.1)[prefix.len() as int] == text[sp.0 + prefix.len() as int]);
    }
}

/// Scan `text` for every non-overlapping occurrence of the literal `prefix`
/// immediately followed by a maximal run of decimal digits, collapse the
/// occurrences to one reference per numeric id, and return them in ascending
/// id order. A digit run whose value does not fit in a `u32` fails the whole
/// scan with `ScanError::Overflow`; no other input is rejected.
pub fn scan(prefix: &str, text: &str) -> (r: Result<Vec<IssueReference>, ScanError>)
    ensures
        r matches Ok(v) ==> scan_post(prefix@, text@, v@.map_values(|ir: IssueReference| ir@)),
        r matches Ok(v) ==> forall|i: int|
            0 <= i < v@.len() ==> reference_shape(prefix@, (#[trigger] v@[i])@),
        r is Err <==> some_span_overflows(prefix@, text@),
        r matches Err(e) ==> e == ScanError::Overflow,
{
    let raw = match collect_raw(prefix, text) {
        Ok(raw) => raw,
        Err(e) => {
            return Err(e);
        },
    };
    let out = dedup_sort(&raw);
    proof {
        lemma_scan_compose(prefix@, text@, raw@, out@);
    }
    Ok(out)
}

/// When the text holds no occurrence of the prefix-digit pattern, a result
/// that satisfies the scanner's postcondition is empty, and the scan cannot
/// have failed with an overflow: no matches means an empty result, not an
/// error.
pub proof fn lemma_scan_no_matches(prefix: Seq<char>, text: Seq<char>, out: Seq<(u32, Seq<char>)>)
    requires
        raw_spans(prefix, text, 0).len() == 0,
        scan_post(prefix, text, out),
    ensures
        out.len() == 0,
        !some_span_overflows(prefix, text),
{
    if out.len() > 0 {
        assert(entry_from_spans(prefix, text, raw_spans(prefix, text, 0), out[0]));
    }
}

/// Two strictly increasing sequences with the same members are equal.
proof fn lemma_strictly_sorted_same_members(a: Seq<u32>, b: Seq<u32>)
    requires
        forall|i: int, j: int| 0 <= i < j < a.len() ==> a[i] < a[j],
        forall|i: int, j: int| 0 <= i < j < b.len() ==> b[i] < b[j],
        forall|x: u32| a.contains(x) <==> b.contains(x),
    ensures
        a == b,
    decreases a.len(),
{
    if a.len() == 0 {
        if b.len() > 0 {
            assert(b.contains(b[0]));
            assert(a.contains(b[0]));
        }
        assert(a =~= b);
    } else {
        assert(a.contains(a[0]));
        assert(b.contains(a[0]));
        let ib = choose|i: int| 0 <= i < b.len() && b[i] == a[0];
        assert(b.contains(b[0]));
        assert(a.contains(b[0]));
        let ia = choose|i: int| 0 <= i < a.len() && a[i] == b[0];
        assert(ia == 0 || a[0] < a[ia]);
        assert(ib == 0 || b[0] < b[ib]);
        assert(a[0] == b[0]);
        let at = a.drop_first();
        let bt = b.drop_first();
        assert forall|x: u32| at.contains(x) <==> bt.contains(x) by {
            if at.contains(x) {
                let i = choose|i: int| 0 <= i < at.len() && at[i] == x;
                assert(a[i + 1] == x);
                assert(a.contains(x));
                assert(b.contains(x));
                let j = choose|j: int| 0 <= j < b.len() && b[j] == x;
                assert(a[0] < x);
                assert(j != 0);
                assert(bt[j - 1] == x);
                assert(bt.contains(x));
            }
            if bt.contains(x) {
                let i = choose|i: int| 0 <= i < bt.len() && bt[i] == x;
                assert(b[i + 1] == x);
                assert(b.contains(x));
                assert(a.contains(x));
                let j = choose|j: int| 0 <= j < a.len() && a[j] == x;
                assert(b[0] < x);
                assert(j != 0);
                assert(at[j - 1] == x);
                assert(at.contains(x));
            }
        }
        lemma_strictly_sorted_same_members(at, bt);
        assert forall|i: int| 0 <= i < a.len() implies a[i] == b[i] by {
            if i > 0 {
                assert(a[i] == at[i - 1]);
                assert(b[i] == bt[i - 1]);
            }
        }
        assert(a =~= b);
    }
}

/// Scanning the same prefix and the same text twice yields the same set of
/// numeric ids, in the same ascending order: any two results that satisfy
/// the scanner's postcondition carry equal id sequences.
pub proof fn lemma_scan_ids_deterministic(
    prefix: Seq<char>,
    text: Seq<char>,
    a: Seq<(u32, Seq<char>)>,
    b: Seq<(u32, Seq<char>)>,
)
    requires
        scan_post(prefix, text, a),
        scan_post(prefix, text, b),
    ensures
        a.map_values(|e: (u32, Seq<char>)| e.0) == b.map_values(|e: (u32, Seq<char>)| e.0),
{
    let spans = raw_spans(prefix, text, 0);
    let ia = a.map_values(|e: (u32, Seq<char>)| e.0);
    let ib = b.map_values(|e: (u32, Seq<char>)| e.0);
    assert forall|x: u32| ia.contains(x) <==> ib.contains(x) by {
        if ia.contains(x) {
            let i = choose|i: int| 0 <= i < ia.len() && ia[i] == x;
            assert(entry_from_spans(prefix, text, spans, a[i]));
            let k = choose|k: int|
                0 <= k < spans.len() && a[i].0 as int == span_id(prefix, text, #[trigger] spans[k])
                    && a[i].1 == span_text(text, spans[k]);
            assert(span_id_in_entries(prefix, text, spans[k], b));
            let j = choose|j: int|
                0 <= j < b.len() && (#[trigger] b[j]).0 as int == span_id(prefix, text, spans[k]);
            assert(ib[j] == x);
            assert(ib.contains(x));
        }
        if ib.contains(x) {
            let i = choose|i: int| 0 <= i < ib.len() && ib[i] == x;
            assert(entry_from_spans(prefix, text, spans, b[i]));
            let k = choose|k: int|
                0 <= k < spans.len() && b[i].0 as int == span_id(prefix, text, #[trigger] spans[k])
                    && b[i].1 == span_text(text, spans[k]);
            assert(span_id_in_entries(prefix, text, spans[k], a));
            let j = choose|j: int|
                0 <= j < a.len() && (#[trigger] a[j]).0 as int == span_id(prefix, text, spans[k]);
            assert(ia[j] == x);
            assert(ia.contains(x));
        }
    }
    assert forall|i: int, j: int| 0 <= i < j < ia.len() implies ia[i] < ia[j] by {
        assert(ia[i] == a[i].0 && ia[j] == a[j].0);
    }
    assert forall|i: int, j: int| 0 <= i < j < ib.len() implies ib[i] < ib[j] by {
        assert(ib[i] == b[i].0 && ib[j] == b[j].0);
    }
    lemma_strictly_sorted_same_members(ia, ib);
}

} // verus!

