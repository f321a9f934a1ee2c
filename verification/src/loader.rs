//! Name source loader: parses a block of delimited-row text into the
//! trimmed, non-empty first fields of its rows, skipping rows whose
//! quoting is malformed.

use vstd::prelude::*;

verus! {

/// The quote byte (`"`), which may enclose a field.
pub const QUOTE: u8 = 34;

/// The comma byte (`,`), which separates fields within a row.
pub const COMMA: u8 = 44;

/// The newline byte, which separates rows.
pub const NEWLINE: u8 = 10;

/// ASCII whitespace, as removed from both ends of a candidate name.
pub open spec fn is_space(b: u8) -> bool {
    b == 9 || b == 10 || b == 11 || b == 12 || b == 13 || b == 32
}

fn is_space_byte(b: u8) -> (r: bool)
    ensures
        r == is_space(b),
{
    b == 9 || b == 10 || b == 11 || b == 12 || b == 13 || b == 32
}

/// The sequence with leading whitespace removed.
pub open spec fn trim_front(s: Seq<u8>) -> Seq<u8>
    decreases s.len(),
{
    if s.len() > 0 && is_space(s[0]) {
        trim_front(s.skip(1))
    } else {
        s
    }
}

/// The sequence with trailing whitespace removed.
pub open spec fn trim_back(s: Seq<u8>) -> Seq<u8>
    decreases s.len(),
{
    if s.len() > 0 && is_space(s.last()) {
        trim_back(s.drop_last())
    } else {
        s
    }
}

/// The sequence with whitespace removed from both ends.
pub open spec fn trimmed(s: Seq<u8>) -> Seq<u8> {
    trim_back(trim_front(s))
}

proof fn lemma_trim_front_at(s: Seq<u8>, lo: int)
    requires
        0 <= lo <= s.len(),
        forall|j: int| 0 <= j < lo ==> is_space(s[j]),
        lo == s.len() || !is_space(s[lo]),
    ensures
        trim_front(s) == s.skip(lo),
    decreases lo,
{
    if lo == 0 {
        assert(s.skip(0) =~= s);
    } else {
        assert(is_space(s[0]));
        assert(forall|j: int| 0 <= j < lo - 1 ==> is_space(#[trigger] s.skip(1)[j]));
        lemma_trim_front_at(s.skip(1), lo - 1);
        assert(s.skip(1).skip(lo - 1) =~= s.skip(lo));
    }
}

proof fn lemma_trim_back_at(s: Seq<u8>, hi: int)
    requires
        0 <= hi <= s.len(),
        forall|j: int| hi <= j < s.len() ==> is_space(s[j]),
        hi == 0 || !is_space(s[hi - 1]),
    ensures
        trim_back(s) == s.take(hi),
    decreases s.len() - hi,
{
    if hi == s.len() {
        assert(s.take(hi) =~= s);
    } else {
        assert(is_space(s.last()));
        assert(forall|j: int|
            hi <= j < s.len() - 1 ==> is_space(#[trigger] s.drop_last()[j]));
        lemma_trim_back_at(s.drop_last(), hi);
        assert(s.drop_last().take(hi) =~= s.take(hi));
    }
}

/// Copy of `v` with ASCII whitespace removed from both ends.
pub fn trim_bytes(v: &Vec<u8>) -> (r: Vec<u8>)
    ensures
        r@ == trimmed(v@),
{
    let n = v.len();
    let mut lo: usize = 0;
    while lo < n && is_space_byte(v[lo])
        invariant
            0 <= lo <= n,
            n == v@.len(),
            forall|j: int| 0 <= j < lo ==> is_space(v@[j]),
        decreases n - lo,
    {
        lo = lo + 1;
    }
    let mut hi: usize = n;
    while hi > lo && is_space_byte(v[hi - 1])
        invariant
            lo <= hi <= n,
            n == v@.len(),
            forall|j: int| hi <= j < n ==> is_space(v@[j]),
        decreases hi,
    {
        hi = hi - 1;
    }
    let mut r: Vec<u8> = Vec::new();
    let mut i: usize = lo;
    while i < hi
        invariant
            lo <= i <= hi <= n,
            n == v@.len(),
            r@ == v@.subrange(lo as int, i as int),
        decreases hi - i,
    {
        r.push(v[i]);
        proof {
            assert(v@.subrange(lo as int, i + 1) =~= v@.subrange(lo as int, i as int).push(
                v@[i as int],
            ));
        }
        i = i + 1;
    }
    proof {
        lemma_trim_front_at(v@, lo as int);
        lemma_trim_back_at(v@.skip(lo as int), hi - lo);
        assert(v@.skip(lo as int).take(hi - lo) =~= v@.subrange(lo as int, hi as int));
    }
    r
}

/// Scans the inside of a quoted field. `s` is the text after the opening
/// quote and `acc` the field bytes read so far. A doubled quote stands for
/// one literal quote byte. Returns the field and the text after the closing
/// quote, or `None` when the quote is never closed.
pub open spec fn quoted_rest(s: Seq<u8>, acc: Seq<u8>) -> Option<(Seq<u8>, Seq<u8>)>
    decreases s.len(),
{
    if s.len() == 0 {
        None
    } else if s[0] == QUOTE {
        if s.len() >= 2 && s[1] == QUOTE {
            quoted_rest(s.skip(2), acc.push(QUOTE))
        } else {
            Some((acc, s.skip(1)))
        }
    } else {
        quoted_rest(s.skip(1), acc.push(s[0]))
    }
}

/// The first field of an unquoted row: everything before the first comma.
pub open spec fn unquoted_prefix(s: Seq<u8>) -> Seq<u8>
    decreases s.len(),
{
    if s.len() == 0 || s[0] == COMMA {
        Seq::empty()
    } else {
        seq![s[0]] + unquoted_prefix(s.skip(1))
    }
}

/// The first field of a row, or `None` when the row is malformed: a quoted
/// field that is never closed, or one followed by stray bytes instead of a
/// field separator.
pub open spec fn first_field(row: Seq<u8>) -> Option<Seq<u8>> {
    if row.len() == 0 {
        Some(Seq::empty())
    } else if row[0] == QUOTE {
        match quoted_rest(row.skip(1), Seq::empty()) {
            None => None,
            Some(fr) => if fr.1.len() == 0 || fr.1[0] == COMMA {
                Some(fr.0)
            } else {
                None
            },
        }
    } else {
        Some(unquoted_prefix(row))
    }
}

proof fn lemma_unquoted_prefix_take(s: Seq<u8>, k: int)
    requires
        0 <= k <= s.len(),
        forall|j: int| 0 <= j < k ==> s[j] != COMMA,
        k == s.len() || s[k] == COMMA,
    ensures
        unquoted_prefix(s) == s.take(k),
    decreases k,
{
    if k == 0 {
        assert(s.take(0) =~= Seq::<u8>::empty());
    } else {
        assert(s[0] != COMMA);
        assert(forall|j: int| 0 <= j < k - 1 ==> #[trigger] s.skip(1)[j] != COMMA);
        lemma_unquoted_prefix_take(s.skip(1), k - 1);
        assert(seq![s[0]] + s.skip(1).take(k - 1) =~= s.take(k));
    }
}

/// The first field of `data[start..end]`, a single row of the input.
/// Returns `None` exactly when that row is malformed.
pub fn parse_first_field(data: &[u8], start: usize, end: usize) -> (r: Option<Vec<u8>>)
    requires
        start <= end <= data@.len(),
    ensures
        match r {
            Some(f) => first_field(data@.subrange(start as int, end as int)) == Some(f@),
            None => first_field(data@.subrange(start as int, end as int)) is None,
        },
{
    let ghost row = data@.subrange(start as int, end as int);
    if start == end {
        let r: Vec<u8> = Vec::new();
        return Some(r);
    }
    assert(row[0] == data@[start as int]);
    if data[start] == QUOTE {
        let mut field: Vec<u8> = Vec::new();
        let mut i = start + 1;
        proof {
            assert(row.skip(1) =~= data@.subrange(start + 1, end as int));
        }
        while i < end
            invariant
                start + 1 <= i <= end,
                start < end <= data@.len(),
                row == data@.subrange(start as int, end as int),
                row[0] == QUOTE,
                quoted_rest(row.skip(1), Seq::empty()) == quoted_rest(
                    data@.subrange(i as int, end as int),
                    field@,
                ),
            decreases end - i,
        {
            let ghost rest = data@.subrange(i as int, end as int);
            let b = data[i];
            assert(rest[0] == b);
            if b == QUOTE {
                if i + 1 < end && data[i + 1] == QUOTE {
                    proof {
                        assert(rest.len() >= 2 && rest[1] == QUOTE);
                        assert(rest.skip(2) =~= data@.subrange(i + 2, end as int));
                        assert(quoted_rest(rest, field@) == quoted_rest(
                            rest.skip(2),
                            field@.push(QUOTE),
                        ));
                    }
                    field.push(QUOTE);
                    i = i + 2;
                } else {
                    // closing quote at `i`; the field must end here or at a comma
                    proof {
                        assert(!(rest.len() >= 2 && rest[1] == QUOTE));
                        assert(rest.skip(1) =~= data@.subrange(i + 1, end as int));
                        assert(quoted_rest(rest, field@) == Some(
                            (field@, data@.subrange(i + 1, end as int)),
                        ));
                    }
                    if i + 1 == end {
                        assert(data@.subrange(i + 1, end as int).len() == 0);
                        assert(first_field(row) == Some(field@));
                        return Some(field);
                    } else if data[i + 1] == COMMA {
                        assert(data@.subrange(i + 1, end as int)[0] == COMMA);
                        assert(first_field(row) == Some(field@));
                        return Some(field);
                    } else {
                        assert(data@.subrange(i + 1, end as int)[0] != COMMA);
                        assert(data@.subrange(i + 1, end as int).len() > 0);
                        assert(first_field(row) is None);
                        return None;
                    }
                }
            } else {
                proof {
                    assert(rest.skip(1) =~= data@.subrange(i + 1, end as int));
                    assert(quoted_rest(rest, field@) == quoted_rest(
                        rest.skip(1),
                        field@.push(b),
                    ));
                }
                field.push(b);
                i = i + 1;
            }
        }
        // the quote was never closed
        proof {
            assert(data@.subrange(end as int, end as int) =~= Seq::<u8>::empty());
            assert(quoted_rest(row.skip(1), Seq::empty()) is None);
        }
        return None;
    }
    assert(row[0] != QUOTE);
    // unquoted: the field runs to the first comma
    let mut k = start;
    while k < end && data[k] != COMMA
        invariant
            start <= k <= end,
            end <= data@.len(),
            forall|j: int| start <= j < k ==> data@[j] != COMMA,
        decreases end - k,
    {
        k = k + 1;
    }
    let mut field: Vec<u8> = Vec::new();
    let mut i = start;
    while i < k
        invariant
            start <= i <= k <= end,
            end <= data@.len(),
            field@ == data@.subrange(start as int, i as int),
        decreases k - i,
    {
        field.push(data[i]);
        proof {
            assert(data@.subrange(start as int, i + 1) =~= data@.subrange(
                start as int,
                i as int,
            ).push(data@[i as int]));
        }
        i = i + 1;
    }
    proof {
        assert(forall|j: int| 0 <= j < k - start ==> #[trigger] row[j] != COMMA);
        assert(k < end ==> row[k - start] == COMMA);
        lemma_unquoted_prefix_take(row, k - start);
        assert(row.take(k - start) =~= data@.subrange(start as int, k as int));
    }
    Some(field)
}

/// A copy of `v`, byte for byte.
pub fn copy_bytes(v: &Vec<u8>) -> (r: Vec<u8>)
    ensures
        r@ == v@,
{
    let mut r: Vec<u8> = Vec::new();
    let mut i: usize = 0;
    while i < v.len()
        invariant
            i <= v@.len(),
            r@ == v@.take(i as int),
        decreases v@.len() - i,
    {
        r.push(v[i]);
        proof {
            assert(v@.take(i + 1) =~= v@.take(i as int).push(v@[i as int]));
        }
        i = i + 1;
    }
    proof {
        assert(v@.take(v@.len() as int) =~= v@);
    }
    r
}

/// The rows of a data block: the segments between newline bytes. A block
/// without a newline is one row; a trailing newline ends an empty last row.
pub open spec fn rows_of(s: Seq<u8>) -> Seq<Seq<u8>>
    decreases s.len(),
{
    if s.len() == 0 {
        seq![Seq::<u8>::empty()]
    } else if s[0] == NEWLINE {
        seq![Seq::<u8>::empty()] + rows_of(s.skip(1))
    } else {
        let rest = rows_of(s.skip(1));
        seq![seq![s[0]] + rest[0]] + rest.skip(1)
    }
}

proof fn lemma_rows_of_len(s: Seq<u8>)
    ensures
        1 <= rows_of(s).len() <= s.len() + 1,
    decreases s.len(),
{
    if s.len() > 0 {
        lemma_rows_of_len(s.skip(1));
    }
}

proof fn lemma_rows_of_no_newline(s: Seq<u8>)
    requires
        forall|j: int| 0 <= j < s.len() ==> s[j] != NEWLINE,
    ensures
        rows_of(s) == seq![s],
    decreases s.len(),
{
    if s.len() == 0 {
        assert(s =~= Seq::<u8>::empty());
        assert(rows_of(s) =~= seq![s]);
    } else {
        assert(forall|j: int| 0 <= j < s.skip(1).len() ==> #[trigger] s.skip(1)[j] != NEWLINE);
        lemma_rows_of_no_newline(s.skip(1));
        assert(seq![s.skip(1)].skip(1) =~= Seq::<Seq<u8>>::empty());
        assert(seq![s[0]] + s.skip(1) =~= s);
        assert(rows_of(s) =~= seq![s]);
    }
}

proof fn lemma_rows_of_split(x: Seq<u8>, y: Seq<u8>)
    ensures
        rows_of(x + seq![NEWLINE] + y) == rows_of(x) + rows_of(y),
    decreases x.len(),
{
    let s = x + seq![NEWLINE] + y;
    if x.len() == 0 {
        assert(s[0] == NEWLINE);
        assert(s.skip(1) =~= y);
        assert(rows_of(s) =~= rows_of(x) + rows_of(y));
    } else {
        assert(s[0] == x[0]);
        assert(s.skip(1) =~= x.skip(1) + seq![NEWLINE] + y);
        lemma_rows_of_split(x.skip(1), y);
        lemma_rows_of_len(x.skip(1));
        if x[0] == NEWLINE {
            assert(rows_of(s) =~= rows_of(x) + rows_of(y));
        } else {
            assert((rows_of(x.skip(1)) + rows_of(y))[0] == rows_of(x.skip(1))[0]);
            assert((rows_of(x.skip(1)) + rows_of(y)).skip(1) =~= rows_of(x.skip(1)).skip(1)
                + rows_of(y));
            assert(rows_of(s) =~= rows_of(x) + rows_of(y));
        }
    }
}

/// What one row contributes to the name list: its trimmed first field,
/// unless the row is malformed or the trimmed field is empty.
pub open spec fn row_name(row: Seq<u8>) -> Seq<Seq<u8>> {
    match first_field(row) {
        Some(f) => if trimmed(f).len() > 0 {
            seq![trimmed(f)]
        } else {
            Seq::empty()
        },
        None => Seq::empty(),
    }
}

/// A row is bad when its first field cannot be parsed.
pub open spec fn row_is_bad(row: Seq<u8>) -> bool {
    first_field(row) is None
}

/// The names contributed by a sequence of rows, in row order.
pub open spec fn names_from_rows(rows: Seq<Seq<u8>>) -> Seq<Seq<u8>>
    decreases rows.len(),
{
    if rows.len() == 0 {
        Seq::empty()
    } else {
        row_name(rows[0]) + names_from_rows(rows.skip(1))
    }
}

/// The indices (counted from `base`) of the bad rows, in row order.
pub open spec fn bad_rows_from(rows: Seq<Seq<u8>>, base: int) -> Seq<int>
    decreases rows.len(),
{
    if rows.len() == 0 {
        Seq::empty()
    } else if row_is_bad(rows[0]) {
        seq![base] + bad_rows_from(rows.skip(1), base + 1)
    } else {
        bad_rows_from(rows.skip(1), base + 1)
    }
}

/// The names that one data block yields.
pub open spec fn names_of(data: Seq<u8>) -> Seq<Seq<u8>> {
    names_from_rows(rows_of(data))
}

/// The indices of the malformed rows of one data block.
pub open spec fn bad_rows_of(data: Seq<u8>) -> Seq<int> {
    bad_rows_from(rows_of(data), 0)
}

/// The views of a list of byte vectors.
pub open spec fn views(s: Seq<Vec<u8>>) -> Seq<Seq<u8>> {
    s.map_values(|v: Vec<u8>| v@)
}

proof fn lemma_names_from_rows_add(a: Seq<Seq<u8>>, b: Seq<Seq<u8>>)
    ensures
        names_from_rows(a + b) == names_from_rows(a) + names_from_rows(b),
    decreases a.len(),
{
    if a.len() == 0 {
        assert(a + b =~= b);
        assert(names_from_rows(a) + names_from_rows(b) =~= names_from_rows(b));
    } else {
        assert((a + b)[0] == a[0]);
        assert((a + b).skip(1) =~= a.skip(1) + b);
        lemma_names_from_rows_add(a.skip(1), b);
        assert(row_name(a[0]) + (names_from_rows(a.skip(1)) + names_from_rows(b)) =~= (row_name(
            a[0],
        ) + names_from_rows(a.skip(1))) + names_from_rows(b));
    }
}

proof fn lemma_bad_rows_add(a: Seq<Seq<u8>>, b: Seq<Seq<u8>>, base: int)
    ensures
        bad_rows_from(a + b, base) == bad_rows_from(a, base) + bad_rows_from(b, base + a.len()),
    decreases a.len(),
{
    if a.len() == 0 {
        assert(a + b =~= b);
        assert(bad_rows_from(a, base) + bad_rows_from(b, base) =~= bad_rows_from(b, base));
    } else {
        assert((a + b)[0] == a[0]);
        assert((a + b).skip(1) =~= a.skip(1) + b);
        lemma_bad_rows_add(a.skip(1), b, base + 1);
        if row_is_bad(a[0]) {
            assert(seq![base] + (bad_rows_from(a.skip(1), base + 1) + bad_rows_from(
                b,
                base + a.len(),
            )) =~= (seq![base] + bad_rows_from(a.skip(1), base + 1)) + bad_rows_from(
                b,
                base + a.len(),
            ));
        }
    }
}

proof fn lemma_views_push(s: Seq<Vec<u8>>, v: Vec<u8>)
    ensures
        views(s.push(v)) == views(s).push(v@),
{
    assert(views(s.push(v)) =~= views(s).push(v@));
}

/// The rows already consumed once a scan stands at `pos`, which is 0 or
/// just past a newline.
spec fn done_rows(data: Seq<u8>, pos: int) -> Seq<Seq<u8>> {
    if pos == 0 {
        Seq::empty()
    } else {
        rows_of(data.take(pos - 1))
    }
}

/// Parses the first column of `data`: appends to `names` the trimmed,
/// non-empty first field of every well-formed row, in row order, and
/// returns the indices of the rows skipped as malformed, for diagnostics.
#[verifier::loop_isolation(false)]
pub fn parse_from_csv(data: &[u8], names: &mut Vec<Vec<u8>>) -> (bad: Vec<usize>)
    ensures
        views(final(names)@) == views(old(names)@) + names_of(data@),
        bad@.map_values(|i: usize| i as int) == bad_rows_of(data@),
{
    let ghost orig = names@;
    let len = data.len();
    let mut pos: usize = 0;
    let mut row_idx: usize = 0;
    let mut bad: Vec<usize> = Vec::new();
    let mut done = false;
    while !done
        invariant
            pos <= len,
            row_idx <= pos,
            !done ==> (pos == 0 || data@[pos - 1] == NEWLINE),
            !done ==> views(names@) == views(orig) + names_from_rows(
                done_rows(data@, pos as int),
            ),
            !done ==> bad@.map_values(|i: usize| i as int) == bad_rows_from(
                done_rows(data@, pos as int),
                0,
            ),
            !done ==> row_idx as int == done_rows(data@, pos as int).len(),
            done ==> views(names@) == views(orig) + names_of(data@),
            done ==> bad@.map_values(|i: usize| i as int) == bad_rows_of(data@),
        decreases len - pos, (if done { 0int } else { 1int }),
    {
        let mut j = pos;
        while j < len && data[j] != NEWLINE
            invariant
                pos <= j <= len,
                forall|k: int| pos <= k < j ==> data@[k] != NEWLINE,
            decreases len - j,
        {
            j = j + 1;
        }
        let ghost row = data@.subrange(pos as int, j as int);
        proof {
            assert(forall|k: int| 0 <= k < row.len() ==> #[trigger] row[k] != NEWLINE);
            lemma_rows_of_no_newline(row);
        }
        let ghost pre_names = names@;
        let ghost pre_bad = bad@;
        match parse_first_field(data, pos, j) {
            Some(field) => {
                let t = trim_bytes(&field);
                if t.len() > 0 {
                    proof {
                        lemma_views_push(names@, t);
                        assert(row_name(row) =~= seq![t@]);
                        assert(views(pre_names).push(t@) =~= views(pre_names) + seq![t@]);
                    }
                    names.push(t);
                } else {
                    proof {
                        assert(row_name(row) =~= Seq::<Seq<u8>>::empty());
                        assert(views(pre_names) + row_name(row) =~= views(pre_names));
                    }
                }
            },
            None => {
                proof {
                    assert(row_name(row) =~= Seq::<Seq<u8>>::empty());
                    assert(views(pre_names) + row_name(row) =~= views(pre_names));
                    assert(pre_bad.push(row_idx).map_values(|i: usize| i as int) =~= pre_bad
                        .map_values(|i: usize| i as int) + seq![row_idx as int]);
                }
                bad.push(row_idx);
            },
        }
        proof {
            // after the match:
            assert(views(names@) == views(orig) + names_from_rows(done_rows(data@, pos as int))
                + row_name(row));
            assert(bad@.map_values(|i: usize| i as int) == bad_rows_from(
                done_rows(data@, pos as int),
                0,
            ) + (if row_is_bad(row) {
                seq![row_idx as int]
            } else {
                Seq::<int>::empty()
            }));
            assert(names_from_rows(seq![row]) =~= row_name(row) + names_from_rows(
                seq![row].skip(1),
            ));
            assert(seq![row].skip(1) =~= Seq::<Seq<u8>>::empty());
            assert(names_from_rows(seq![row]) =~= row_name(row));
            assert(bad_rows_from(Seq::<Seq<u8>>::empty(), row_idx + 1) =~= Seq::<int>::empty());
            if row_is_bad(row) {
                assert(bad_rows_from(seq![row], row_idx as int) == seq![row_idx as int]
                    + bad_rows_from(seq![row].skip(1), row_idx + 1));
                assert(seq![row_idx as int] + Seq::<int>::empty() =~= seq![row_idx as int]);
            }
            assert(bad_rows_from(seq![row], row_idx as int) =~= (if row_is_bad(row) {
                seq![row_idx as int]
            } else {
                Seq::<int>::empty()
            }));
        }
        if j < len {
            proof {
                let donep = done_rows(data@, pos as int);
                if pos == 0 {
                    assert(data@.take(j as int) =~= row);
                    assert(done_rows(data@, j + 1) =~= donep + seq![row]);
                } else {
                    assert(data@.take(j as int) =~= data@.take(pos - 1) + seq![NEWLINE] + row);
                    lemma_rows_of_split(data@.take(pos - 1), row);
                    assert(done_rows(data@, j + 1) =~= donep + seq![row]);
                }
                lemma_names_from_rows_add(donep, seq![row]);
                lemma_bad_rows_add(donep, seq![row], 0);
                assert(views(orig) + names_from_rows(donep) + row_name(row) =~= views(orig)
                    + names_from_rows(done_rows(data@, j + 1)));
                assert(bad_rows_from(done_rows(data@, j + 1), 0) =~= bad_rows_from(donep, 0) + (
                if row_is_bad(row) {
                    seq![row_idx as int]
                } else {
                    Seq::<int>::empty()
                }));
            }
            row_idx = row_idx + 1;
            pos = j + 1;
        } else {
            proof {
                let donep = done_rows(data@, pos as int);
                if pos == 0 {
                    assert(row =~= data@);
                    assert(rows_of(data@) =~= donep + seq![row]);
                } else {
                    assert(data@ =~= data@.take(pos - 1) + seq![NEWLINE] + row);
                    lemma_rows_of_split(data@.take(pos - 1), row);
                    assert(rows_of(data@) =~= donep + seq![row]);
                }
                lemma_names_from_rows_add(donep, seq![row]);
                lemma_bad_rows_add(donep, seq![row], 0);
                assert(views(orig) + names_from_rows(donep) + row_name(row) =~= views(orig)
                    + names_of(data@));
                assert(bad_rows_of(data@) =~= bad_rows_from(donep, 0) + (if row_is_bad(row) {
                    seq![row_idx as int]
                } else {
                    Seq::<int>::empty()
                }));
            }
            done = true;
        }
    }
    bad
}

} // verus!
