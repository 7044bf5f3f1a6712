use vstd::prelude::*;
use crate::instance::{jobs_total, FSSPInstance, InstanceError};

verus! {

/// ASCII whitespace: space, tab, line feed, vertical tab, form feed, carriage return.
pub open spec fn is_space(c: u8) -> bool {
    c == 32 || (9 <= c && c <= 13)
}

pub open spec fn is_digit(c: u8) -> bool {
    48 <= c && c <= 57
}

/// The pieces of `s` between line feeds; one more than the number of line feeds.
pub open spec fn raw_lines(s: Seq<u8>) -> Seq<Seq<u8>>
    decreases s.len(),
{
    if s.len() == 0 {
        seq![Seq::empty()]
    } else {
        let r = raw_lines(s.drop_last());
        if s.last() == 10 {
            r.push(Seq::empty())
        } else {
            r.update(r.len() - 1, r.last().push(s.last()))
        }
    }
}

/// The lines of `s`: a final line feed ends the last line rather than starting another.
pub open spec fn text_lines(s: Seq<u8>) -> Seq<Seq<u8>> {
    if s.len() == 0 || s.last() == 10 {
        raw_lines(s).drop_last()
    } else {
        raw_lines(s)
    }
}

/// The maximal runs of non-whitespace bytes of `s`, in order.
pub open spec fn words(s: Seq<u8>) -> Seq<Seq<u8>>
    decreases s.len(),
{
    if s.len() == 0 {
        Seq::empty()
    } else {
        let w = words(s.drop_last());
        if is_space(s.last()) {
            w
        } else if s.len() >= 2 && !is_space(s[s.len() - 2]) {
            w.update(w.len() - 1, w.last().push(s.last()))
        } else {
            w.push(seq![s.last()])
        }
    }
}

/// The words of each line of `s`.
pub open spec fn text_rows(s: Seq<u8>) -> Seq<Seq<Seq<u8>>> {
    Seq::new(text_lines(s).len(), |k: int| words(text_lines(s)[k]))
}

/// The number written by the decimal digits `w`.
pub open spec fn decimal_value(w: Seq<u8>) -> nat
    decreases w.len(),
{
    if w.len() == 0 {
        0
    } else {
        decimal_value(w.drop_last()) * 10 + (w.last() - 48) as nat
    }
}

/// `w` read as a decimal number that fits in 32 bits, if it is one.
pub open spec fn decimal_of(w: Seq<u8>) -> Option<u32> {
    if w.len() > 0 && (forall|k: int| 0 <= k < w.len() ==> is_digit(#[trigger] w[k]))
        && decimal_value(w) <= u32::MAX {
        Some(decimal_value(w) as u32)
    } else {
        None
    }
}

/// What is wrong with a job row that should hold `m` times, if anything.
pub open spec fn row_error(row: Seq<Seq<u8>>, m: nat) -> Option<InstanceError> {
    if exists|t: int| 0 <= t < row.len() && decimal_of(#[trigger] row[t]) is None {
        Some(InstanceError::InvalidNumber)
    } else if row.len() != m {
        Some(InstanceError::ColumnCount)
    } else {
        None
    }
}

/// The error of the first faulty row of `body`, if any.
pub open spec fn body_error(body: Seq<Seq<Seq<u8>>>, m: nat) -> Option<InstanceError>
    decreases body.len(),
{
    if body.len() == 0 {
        None
    } else {
        match body_error(body.drop_last(), m) {
            Some(e) => Some(e),
            None => row_error(body.last(), m),
        }
    }
}

/// The times of a row without faults.
pub open spec fn row_values(row: Seq<Seq<u8>>) -> Seq<u32> {
    Seq::new(row.len(), |t: int| decimal_of(row[t])->Some_0)
}

/// Position of the first row at or after `k` that holds a word, or `rows.len()`.
pub open spec fn first_nonblank(rows: Seq<Seq<Seq<u8>>>, k: int) -> int
    decreases rows.len() - k,
{
    if k >= rows.len() {
        rows.len() as int
    } else if rows[k].len() > 0 {
        k
    } else {
        first_nonblank(rows, k + 1)
    }
}

/// The instance that the text `s` describes: `(n_jobs, n_machines, times)`, or
/// why it describes none. The first line with a word is the header, with two
/// positive numbers `n` and `m`; the `n` lines after it hold `m` times each.
pub open spec fn instance_of_text(s: Seq<u8>) -> Result<(nat, nat, Seq<Seq<u32>>), InstanceError> {
    let rows = text_rows(s);
    let h = first_nonblank(rows, 0);
    if h >= rows.len() {
        Err(InstanceError::Empty)
    } else if rows[h].len() != 2 {
        Err(InstanceError::BadHeader)
    } else if decimal_of(rows[h][0]) is None || decimal_of(rows[h][1]) is None {
        Err(InstanceError::InvalidNumber)
    } else {
        let n = decimal_of(rows[h][0])->Some_0 as nat;
        let m = decimal_of(rows[h][1])->Some_0 as nat;
        let last = if h + 1 + n <= rows.len() { h + 1 + n } else { rows.len() as int };
        let body = rows.subrange(h + 1, last);
        let times = Seq::new(body.len(), |k: int| row_values(body[k]));
        if n == 0 || m == 0 {
            Err(InstanceError::BadHeader)
        } else if body_error(body, m) is Some {
            Err(body_error(body, m)->Some_0)
        } else if body.len() < n {
            Err(InstanceError::RowCount)
        } else if jobs_total(times, n) > u32::MAX {
            Err(InstanceError::TooLarge)
        } else {
            Ok((n, m, times))
        }
    }
}

/// Splits `text` into its lines.
pub fn split_lines(text: &[u8]) -> (r: Vec<Vec<u8>>)
    ensures
        r.deep_view() == text_lines(text@),
{
    let mut r: Vec<Vec<u8>> = Vec::new();
    let mut cur: Vec<u8> = Vec::new();
    let mut i: usize = 0;
    while i < text.len()
        invariant
            0 <= i <= text@.len(),
            raw_lines(text@.take(i as int)) =~~= r.deep_view().push(cur@),
        decreases text@.len() - i,
    {
        let c = text[i];
        let ghost before = text@.take(i as int);
        assert(text@.take(i + 1).drop_last() =~= before);
        if c == 10 {
            let ghost prev = r.deep_view();
            r.push(cur);
            cur = Vec::new();
            assert(r.deep_view() =~~= prev.push(raw_lines(before).last()));
        } else {
            cur.push(c);
        }
        i = i + 1;
    }
    assert(text@.take(text@.len() as int) =~= text@);
    if text.len() == 0 || text[text.len() - 1] == 10 {
        assert(r.deep_view() =~~= raw_lines(text@).drop_last());
        r
    } else {
        let ghost prev = r.deep_view();
        r.push(cur);
        assert(r.deep_view() =~~= prev.push(raw_lines(text@).last()));
        r
    }
}

/// Splits a line into its words.
pub fn split_words(line: &Vec<u8>) -> (r: Vec<Vec<u8>>)
    ensures
        r.deep_view() == words(line@),
{
    let mut r: Vec<Vec<u8>> = Vec::new();
    let mut cur: Vec<u8> = Vec::new();
    let mut in_word = false;
    let mut i: usize = 0;
    while i < line.len()
        invariant
            0 <= i <= line@.len(),
            in_word == (i > 0 && !is_space(line@[i - 1])),
            in_word ==> words(line@.take(i as int)) =~~= r.deep_view().push(cur@),
            !in_word ==> words(line@.take(i as int)) =~~= r.deep_view(),
        decreases line@.len() - i,
    {
        let c = line[i];
        let ghost before = line@.take(i as int);
        assert(line@.take(i + 1).drop_last() =~= before);
        if c == 32 || (9 <= c && c <= 13) {
            if in_word {
                let ghost prev = r.deep_view();
                r.push(cur);
                cur = Vec::new();
                assert(r.deep_view() =~~= prev.push(words(before).last()));
            }
            in_word = false;
        } else {
            if in_word {
                cur.push(c);
            } else {
                cur = Vec::new();
                cur.push(c);
                in_word = true;
            }
        }
        i = i + 1;
    }
    assert(line@.take(line@.len() as int) =~= line@);
    if in_word {
        let ghost prev = r.deep_view();
        r.push(cur);
        assert(r.deep_view() =~~= prev.push(words(line@).last()));
    }
    r
}

proof fn lemma_decimal_value_grows(w: Seq<u8>, i: int, j: int)
    requires
        0 <= i <= j <= w.len(),
        forall|k: int| 0 <= k < w.len() ==> is_digit(#[trigger] w[k]),
    ensures
        decimal_value(w.take(i)) <= decimal_value(w.take(j)),
    decreases j - i,
{
    if i < j {
        lemma_decimal_value_grows(w, i, j - 1);
        assert(w.take(j).drop_last() =~= w.take(j - 1));
    }
}

/// Reads a decimal number that fits in 32 bits.
pub fn parse_decimal(w: &Vec<u8>) -> (r: Option<u32>)
    ensures
        r == decimal_of(w@),
{
    if w.len() == 0 {
        return None;
    }
    let mut k: usize = 0;
    while k < w.len()
        invariant
            0 <= k <= w@.len(),
            forall|x: int| 0 <= x < k ==> is_digit(#[trigger] w@[x]),
        decreases w@.len() - k,
    {
        if !(48 <= w[k] && w[k] <= 57) {
            assert(!is_digit(w@[k as int]));
            return None;
        }
        k = k + 1;
    }
    let mut acc: u64 = 0;
    let mut i: usize = 0;
    while i < w.len()
        invariant
            0 <= i <= w@.len(),
            forall|x: int| 0 <= x < w@.len() ==> is_digit(#[trigger] w@[x]),
            acc == decimal_value(w@.take(i as int)),
            acc <= u32::MAX,
        decreases w@.len() - i,
    {
        assert(w@.take(i + 1).drop_last() =~= w@.take(i as int));
        acc = acc * 10 + (w[i] - 48) as u64;
        if acc > u32::MAX as u64 {
            proof {
                lemma_decimal_value_grows(w@, i + 1, w@.len() as int);
                assert(w@.take(w@.len() as int) =~= w@);
            }
            return None;
        }
        i = i + 1;
    }
    assert(w@.take(w@.len() as int) =~= w@);
    Some(acc as u32)
}

proof fn lemma_body_error_prefix(body: Seq<Seq<Seq<u8>>>, m: nat, i: int, j: int)
    requires
        0 <= i <= j <= body.len(),
        body_error(body.take(i), m) is Some,
    ensures
        body_error(body.take(j), m) == body_error(body.take(i), m),
    decreases j - i,
{
    if i < j {
        lemma_body_error_prefix(body, m, i, j - 1);
        assert(body.take(j).drop_last() =~= body.take(j - 1));
    }
}

proof fn lemma_body_error_none(body: Seq<Seq<Seq<u8>>>, m: nat)
    ensures
        body_error(body, m) is None <==> forall|j: int|
            0 <= j < body.len() ==> #[trigger] row_error(body[j], m) is None,
    decreases body.len(),
{
    if body.len() > 0 {
        let p = body.drop_last();
        lemma_body_error_none(p, m);
        if body_error(body, m) is None {
            assert forall|j: int| 0 <= j < body.len() implies #[trigger] row_error(body[j], m) is None by {
                if j < p.len() {
                    assert(row_error(p[j], m) is None);
                }
            }
        } else {
            if body_error(p, m) is Some {
                let j = choose|j: int| 0 <= j < p.len() && #[trigger] row_error(p[j], m) is Some;
                assert(row_error(body[j], m) is Some);
            } else {
                assert(row_error(body[body.len() - 1], m) is Some);
            }
        }
    }
}

/// Reads an instance from the text of an instance file.
pub fn parse_instance(text: &[u8]) -> (r: Result<FSSPInstance, InstanceError>)
    ensures
        match instance_of_text(text@) {
            Ok((n, m, times)) => r matches Ok(inst) && inst.wf() && inst.n_jobs == n
                && inst.n_machines == m && inst.times() == times && inst.total_time() <= u32::MAX,
            Err(e) => r == Err::<FSSPInstance, InstanceError>(e),
        },
{
    let lines = split_lines(text);
    let ghost rows = text_rows(text@);
    assert(rows.len() == lines@.len());
    assert forall|k: int| 0 <= k < lines@.len() implies #[trigger] rows[k] == words(lines@[k]@) by {
        assert(lines.deep_view()[k] =~= lines@[k]@);
    }
    let mut h: usize = 0;
    let mut header: Vec<Vec<u8>> = Vec::new();
    loop
        invariant
            rows.len() == lines@.len(),
            forall|k: int| 0 <= k < lines@.len() ==> #[trigger] rows[k] == words(lines@[k]@),
            0 <= h <= lines@.len(),
            first_nonblank(rows, 0) == first_nonblank(rows, h as int),
        ensures
            0 <= h <= lines@.len(),
            first_nonblank(rows, 0) == first_nonblank(rows, h as int),
            h < lines@.len() ==> header.deep_view() == rows[h as int] && header@.len() > 0,
        decreases lines@.len() - h,
    {
        if h == lines.len() {
            break;
        }
        header = split_words(&lines[h]);
        if header.len() > 0 {
            break;
        }
        h = h + 1;
    }
    if h == lines.len() {
        return Err(InstanceError::Empty);
    }
    assert(first_nonblank(rows, 0) == h);
    if header.len() != 2 {
        return Err(InstanceError::BadHeader);
    }
    assert(header.deep_view()[0] =~= header@[0]@ && header.deep_view()[1] =~= header@[1]@);
    let n0 = parse_decimal(&header[0]);
    let m0 = parse_decimal(&header[1]);
    let n = match n0 {
        Some(v) => v as usize,
        None => {
            return Err(InstanceError::InvalidNumber);
        },
    };
    let m = match m0 {
        Some(v) => v as usize,
        None => {
            return Err(InstanceError::InvalidNumber);
        },
    };
    let ghost last = if h + 1 + n <= rows.len() { h + 1 + n } else { rows.len() as int };
    let ghost body = rows.subrange(h + 1, last);
    if n == 0 || m == 0 {
        return Err(InstanceError::BadHeader);
    }
    let mut times: Vec<Vec<u32>> = Vec::new();
    let mut k: usize = 0;
    while k < n && k < lines.len() - h - 1
        invariant
            rows.len() == lines@.len(),
            forall|x: int| 0 <= x < lines@.len() ==> #[trigger] rows[x] == words(lines@[x]@),
            0 <= h < lines@.len(),
            body == rows.subrange(h + 1, last),
            last == if h + 1 + n <= rows.len() { h + 1 + n } else { rows.len() as int },
            first_nonblank(rows, 0) == h,
            rows == text_rows(text@),
            rows[h as int].len() == 2,
            decimal_of(rows[h as int][0]) == Some(n as u32),
            decimal_of(rows[h as int][1]) == Some(m as u32),
            n > 0,
            m > 0,
            n <= u32::MAX,
            m <= u32::MAX,
            0 <= k <= body.len(),
            body_error(body.take(k as int), m as nat) is None,
            times.deep_view() =~= Seq::new(k as nat, |x: int| row_values(body[x])),
        decreases n - k,
    {
        let row = split_words(&lines[h + 1 + k]);
        assert(row.deep_view() == body[k as int]);
        assert(body.take(k + 1).drop_last() =~= body.take(k as int));
        let mut values: Vec<u32> = Vec::new();
        let mut t: usize = 0;
        while t < row.len()
            invariant
                row.deep_view() == body[k as int],
                rows.len() == lines@.len(),
                0 <= h < lines@.len(),
                body == rows.subrange(h + 1, last),
                last == if h + 1 + n <= rows.len() { h + 1 + n } else { rows.len() as int },
                first_nonblank(rows, 0) == h,
                rows == text_rows(text@),
            rows == text_rows(text@),
                rows[h as int].len() == 2,
                decimal_of(rows[h as int][0]) == Some(n as u32),
                decimal_of(rows[h as int][1]) == Some(m as u32),
                n > 0,
                m > 0,
                n <= u32::MAX,
                m <= u32::MAX,
                0 <= k < body.len(),
                body_error(body.take(k as int), m as nat) is None,
                body.take(k + 1).drop_last() =~= body.take(k as int),
                0 <= t <= row@.len(),
                forall|x: int| 0 <= x < t ==> decimal_of(#[trigger] body[k as int][x]) is Some,
                values@ =~= Seq::new(t as nat, |x: int| decimal_of(body[k as int][x])->Some_0),
            decreases row@.len() - t,
        {
            assert(row.deep_view()[t as int] =~= row@[t as int]@);
            match parse_decimal(&row[t]) {
                Some(v) => {
                    values.push(v);
                },
                None => {
                    proof {
                        assert(row_error(body[k as int], m as nat) == Some(InstanceError::InvalidNumber));
                        lemma_body_error_prefix(body, m as nat, k + 1, body.len() as int);
                        assert(body.take(body.len() as int) =~= body);
                        assert(body_error(body, m as nat) == Some(InstanceError::InvalidNumber));
                        assert(instance_of_text(text@) == Err::<(nat, nat, Seq<Seq<u32>>), InstanceError>(InstanceError::InvalidNumber));
                    }
                    return Err(InstanceError::InvalidNumber);
                },
            }
            t = t + 1;
        }
        if row.len() != m {
            proof {
                assert(row_error(body[k as int], m as nat) == Some(InstanceError::ColumnCount));
                lemma_body_error_prefix(body, m as nat, k + 1, body.len() as int);
                assert(body.take(body.len() as int) =~= body);
                assert(body_error(body, m as nat) == Some(InstanceError::ColumnCount));
                assert(instance_of_text(text@) == Err::<(nat, nat, Seq<Seq<u32>>), InstanceError>(InstanceError::ColumnCount));
            }
            return Err(InstanceError::ColumnCount);
        }
        assert(values@ =~= row_values(body[k as int]));
        let ghost prev = times.deep_view();
        times.push(values);
        assert(times.deep_view() =~~= prev.push(row_values(body[k as int])));
        k = k + 1;
    }
    assert(body.take(k as int) =~= body);
    if k < n {
        return Err(InstanceError::RowCount);
    }
    assert(times@.len() == n);
    proof {
        lemma_body_error_none(body, m as nat);
    }
    assert forall|j: int| 0 <= j < times@.len() implies #[trigger] times@[j]@.len() == m by {
        assert(times.deep_view()[j] =~= times@[j]@);
        assert(row_error(body[j], m as nat) is None);
    }
    let ghost spec_times = Seq::new(body.len(), |x: int| row_values(body[x]));
    assert(times.deep_view() =~= spec_times);
    assert(instance_of_text(text@) == if jobs_total(spec_times, n as nat) > u32::MAX {
        Err::<(nat, nat, Seq<Seq<u32>>), InstanceError>(InstanceError::TooLarge)
    } else {
        Ok::<(nat, nat, Seq<Seq<u32>>), InstanceError>((n as nat, m as nat, spec_times))
    });
    FSSPInstance::new(n, m, times)
}

} // verus!
