use vstd::prelude::*;

verus! {

/// A mounted volume with its capacity figures, in bytes.
pub struct DriveInfo {
    pub name: String,
    pub mount_point: String,
    pub total_space: u64,
    pub available_space: u64,
    pub used_space: u64,
}

/// The used space of a volume: total less available, and never below zero.
pub open spec fn used_of(total: u64, available: u64) -> u64 {
    if available <= total {
        (total - available) as u64
    } else {
        0
    }
}

/// A drive whose capacity figures came from the system: it is listed only
/// when its total is non-zero, and its used space is derived.
pub fn drive_volume(name: String, mount_point: String, total: u64, available: u64) -> (r: Option<
    DriveInfo,
>)
    ensures
        total == 0 <==> r is None,
        r is Some ==> r->0.name == name && r->0.mount_point == mount_point
            && r->0.total_space == total && r->0.available_space == available
            && r->0.used_space == used_of(total, available),
{
    if total == 0 {
        return None;
    }
    let used_space = total.saturating_sub(available);
    Some(DriveInfo { name, mount_point, total_space: total, available_space: available, used_space })
}

/// Used plus available space never exceeds the total of a drive whose
/// available space is within its total.
pub proof fn lemma_volume_math(total: u64, available: u64)
    requires
        available <= total,
    ensures
        used_of(total, available) + available <= total,
        used_of(total, available) + available == total,
{
}

/// A byte that separates fields: ASCII white space.
pub open spec fn is_space(b: u8) -> bool {
    b == 32 || b == 9 || b == 10 || b == 11 || b == 12 || b == 13
}

/// A byte that separates pieces: a line feed for lines, white space for fields.
pub open spec fn is_sep(b: u8, lines: bool) -> bool {
    if lines {
        b == 10
    } else {
        is_space(b)
    }
}

/// The pieces closed so far and the piece being read, after reading `s`.
pub open spec fn split_state(s: Seq<u8>, lines: bool) -> (Seq<Seq<u8>>, Seq<u8>)
    decreases s.len(),
{
    if s.len() == 0 {
        (seq![], seq![])
    } else {
        let (done, cur) = split_state(s.drop_last(), lines);
        if is_sep(s.last(), lines) {
            if cur.len() > 0 {
                (done.push(cur), seq![])
            } else {
                (done, seq![])
            }
        } else {
            (done, cur.push(s.last()))
        }
    }
}

/// The non-empty pieces of `s` between separators, in order.
pub open spec fn pieces(s: Seq<u8>, lines: bool) -> Seq<Seq<u8>> {
    let (done, cur) = split_state(s, lines);
    if cur.len() > 0 {
        done.push(cur)
    } else {
        done
    }
}

/// Splits `s` into its non-empty lines (`lines`) or its fields.
pub fn split_pieces(s: &Vec<u8>, lines: bool) -> (r: Vec<Vec<u8>>)
    ensures
        r@.len() == pieces(s@, lines).len(),
        forall|i: int| 0 <= i < r@.len() ==> #[trigger] r@[i]@ == pieces(s@, lines)[i],
{
    let mut done: Vec<Vec<u8>> = Vec::new();
    let mut cur: Vec<u8> = Vec::new();
    let mut i: usize = 0;
    while i < s.len()
        invariant
            i <= s@.len(),
            done@.len() == split_state(s@.take(i as int), lines).0.len(),
            forall|k: int| 0 <= k < done@.len() ==> #[trigger] done@[k]@ == split_state(s@.take(i as int), lines).0[k],
            cur@ == split_state(s@.take(i as int), lines).1,
        decreases s.len() - i,
    {
        let b = s[i];
        assert(s@.take(i + 1).drop_last() == s@.take(i as int));
        assert(s@.take(i + 1).last() == b);
        let sep = if lines {
            b == 10
        } else {
            b == 32 || b == 9 || b == 10 || b == 11 || b == 12 || b == 13
        };
        if sep {
            if cur.len() > 0 {
                let piece = cur;
                done.push(piece);
                cur = Vec::new();
            } else {
                cur = Vec::new();
            }
        } else {
            cur.push(b);
        }
        i = i + 1;
    }
    assert(s@.take(i as int) == s@);
    if cur.len() > 0 {
        done.push(cur);
    }
    done
}

/// The value of a string of decimal digits.
pub open spec fn digits_value(s: Seq<u8>) -> int
    decreases s.len(),
{
    if s.len() == 0 {
        0
    } else {
        digits_value(s.drop_last()) * 10 + (s.last() - 48)
    }
}

pub open spec fn all_digits(s: Seq<u8>) -> bool {
    forall|i: int| 0 <= i < s.len() ==> 48 <= #[trigger] s[i] <= 57
}

/// The digits of a number, past an optional leading `+`.
pub open spec fn number_digits(s: Seq<u8>) -> Seq<u8> {
    if s.len() > 0 && s[0] == 43 {
        s.drop_first()
    } else {
        s
    }
}

/// What reading `s` as an unsigned 64-bit decimal number gives, where a text
/// that is no such number reads as 0.
pub open spec fn number_or_zero(s: Seq<u8>) -> u64 {
    let d = number_digits(s);
    if d.len() > 0 && all_digits(d) && digits_value(d) <= u64::MAX {
        digits_value(d) as u64
    } else {
        0
    }
}

proof fn lemma_digits_value_grows(s: Seq<u8>)
    requires
        all_digits(s),
    ensures
        digits_value(s) >= 0,
    decreases s.len(),
{
    if s.len() > 0 {
        lemma_digits_value_grows(s.drop_last());
    }
}

/// Reads a decimal number; a text that is no `u64` reads as 0.
pub fn parse_number_or_zero(s: &Vec<u8>) -> (r: u64)
    ensures
        r == number_or_zero(s@),
{
    let start: usize = if s.len() > 0 && s[0] == 43 {
        1
    } else {
        0
    };
    let ghost d = number_digits(s@);
    assert(d == s@.subrange(start as int, s@.len() as int));
    if start >= s.len() {
        return 0;
    }
    let mut acc: u64 = 0;
    let mut i: usize = start;
    while i < s.len()
        invariant
            start <= i <= s@.len(),
            d == s@.subrange(start as int, s@.len() as int),
            d == number_digits(s@),
            all_digits(d.take(i - start)),
            acc == digits_value(d.take(i - start)),
        decreases s.len() - i,
    {
        let b = s[i];
        assert(d.take(i - start + 1).drop_last() == d.take(i - start));
        assert(d[i - start] == b);
        if b < 48 || b > 57 {
            proof {
                assert(!all_digits(d)) by {
                    assert(d[i - start] == b);
                }
                assert(number_or_zero(s@) == 0);
            }
            return 0;
        }
        proof {
            assert(all_digits(d.take(i - start + 1)));
        }
        let digit: u64 = (b - 48) as u64;
        assert(d.take(i - start + 1).last() == b);
        assert(digits_value(d.take(i - start + 1)) == acc * 10 + digit);
        match acc.checked_mul(10) {
            Some(m) => match m.checked_add(digit) {
                Some(v) => {
                    acc = v;
                },
                None => {
                    proof {
                        lemma_too_large(d, (i - start + 1) as nat);
                    }
                    return 0;
                },
            },
            None => {
                proof {
                    lemma_too_large(d, (i - start + 1) as nat);
                }
                return 0;
            },
        }
        i = i + 1;
    }
    assert(d.take(i - start) == d);
    acc
}

/// Once a prefix of a digit string is too large, so is the whole string.
proof fn lemma_too_large(d: Seq<u8>, n: nat)
    requires
        n <= d.len(),
        digits_value(d.take(n as int)) > u64::MAX,
    ensures
        !(all_digits(d) && digits_value(d) <= u64::MAX),
    decreases d.len() - n,
{
    if all_digits(d) && n < d.len() {
        assert(d.take(n + 1 as int).drop_last() == d.take(n as int));
        assert(all_digits(d.take(n as int)));
        lemma_digits_value_grows(d.take(n as int));
        lemma_too_large(d, n + 1);
    } else if all_digits(d) {
        assert(d.take(n as int) == d);
    }
}


/// One volume line of a `df -k` listing: device, mount point, and the size,
/// used and available space in bytes.
pub struct DfRow {
    pub device: Vec<u8>,
    pub mount_point: Vec<u8>,
    pub total_bytes: u64,
    pub used_bytes: u64,
    pub available_bytes: u64,
}

/// Kilobytes in bytes, saturated at the largest `u64`.
pub open spec fn kb_to_bytes(kb: u64) -> u64 {
    if kb * 1024 <= u64::MAX {
        (kb * 1024) as u64
    } else {
        u64::MAX
    }
}

/// The row that a line with at least six fields stands for.
pub open spec fn row_of(fields: Seq<Seq<u8>>) -> (Seq<u8>, Seq<u8>, u64, u64, u64) {
    (
        fields[0],
        fields[5],
        kb_to_bytes(number_or_zero(fields[1])),
        kb_to_bytes(number_or_zero(fields[2])),
        kb_to_bytes(number_or_zero(fields[3])),
    )
}

/// The rows of the listing lines `lines`: one for each line with at least six
/// fields, in order.
pub open spec fn rows_of(lines: Seq<Seq<u8>>) -> Seq<(Seq<u8>, Seq<u8>, u64, u64, u64)>
    decreases lines.len(),
{
    if lines.len() == 0 {
        seq![]
    } else {
        let fields = pieces(lines.last(), false);
        if fields.len() >= 6 {
            rows_of(lines.drop_last()).push(row_of(fields))
        } else {
            rows_of(lines.drop_last())
        }
    }
}

/// The rows of a whole `df -k` listing, whose first line is a header.
pub open spec fn df_rows(out: Seq<u8>) -> Seq<(Seq<u8>, Seq<u8>, u64, u64, u64)> {
    let lines = pieces(out, true);
    if lines.len() == 0 {
        seq![]
    } else {
        rows_of(lines.drop_first())
    }
}

pub open spec fn row_view(r: DfRow) -> (Seq<u8>, Seq<u8>, u64, u64, u64) {
    (r.device@, r.mount_point@, r.total_bytes, r.used_bytes, r.available_bytes)
}

fn kb_bytes(kb: u64) -> (r: u64)
    ensures
        r == kb_to_bytes(kb),
{
    match kb.checked_mul(1024) {
        Some(b) => b,
        None => u64::MAX,
    }
}

/// Reads the volume rows of a `df -k` listing: the header line is skipped,
/// as is any line with fewer than six fields; fields two, three and four are
/// the size, used and available kilobytes, where a field that is no number reads as 0.
pub fn parse_df(out: &Vec<u8>) -> (r: Vec<DfRow>)
    ensures
        r@.len() == df_rows(out@).len(),
        forall|i: int| 0 <= i < r@.len() ==> row_view(#[trigger] r@[i]) == df_rows(out@)[i],
{
    let lines = split_pieces(out, true);
    let ghost all = pieces(out@, true);
    let mut rows: Vec<DfRow> = Vec::new();
    if lines.len() == 0 {
        return rows;
    }
    let ghost body = all.drop_first();
    let mut i: usize = 1;
    while i < lines.len()
        invariant
            1 <= i <= lines@.len(),
            lines@.len() == all.len(),
            body == all.drop_first(),
            forall|k: int| 0 <= k < lines@.len() ==> #[trigger] lines@[k]@ == all[k],
            rows@.len() == rows_of(body.take(i - 1)).len(),
            forall|k: int| 0 <= k < rows@.len() ==> row_view(#[trigger] rows@[k]) == rows_of(body.take(i - 1))[k],
        decreases lines.len() - i,
    {
        assert(body.take(i as int).drop_last() == body.take(i - 1));
        assert(body.take(i as int).last() == lines@[i as int]@);
        let fields = split_pieces(&lines[i], false);
        if fields.len() >= 6 {
            let ghost fs = pieces(lines@[i as int]@, false);
            let device = fields[0].clone();
            let mount_point = fields[5].clone();
            let total_bytes = kb_bytes(parse_number_or_zero(&fields[1]));
            let used_bytes = kb_bytes(parse_number_or_zero(&fields[2]));
            let available_bytes = kb_bytes(parse_number_or_zero(&fields[3]));
            let row = DfRow { device, mount_point, total_bytes, used_bytes, available_bytes };
            assert(row_view(row) == row_of(fs));
            rows.push(row);
        }
        i = i + 1;
    }
    assert(body.take(i - 1) == body);
    rows
}

/// What `String::from_utf8_lossy` makes of a byte string.
pub uninterp spec fn lossy_text(b: Seq<u8>) -> Seq<char>;

/// Relies on `String::from_utf8_lossy`: the text depends on the bytes alone.
#[verifier::external_body]
fn text_of(b: &Vec<u8>) -> (r: String)
    ensures
        r@ == lossy_text(b@),
{
    String::from_utf8_lossy(b).to_string()
}

/// The volume for a `df -k` row: its capacity is the row's size, and its
/// used and available space are the row's own.
pub fn df_volume(row: &DfRow) -> (r: DriveInfo)
    ensures
        r.name@ == lossy_text(row.device@),
        r.mount_point@ == lossy_text(row.mount_point@),
        r.total_space == row.total_bytes,
        r.used_space == row.used_bytes,
        r.available_space == row.available_bytes,
        row.used_bytes + row.available_bytes <= row.total_bytes ==> r.used_space + r.available_space
            <= r.total_space,
{
    DriveInfo {
        name: text_of(&row.device),
        mount_point: text_of(&row.mount_point),
        total_space: row.total_bytes,
        available_space: row.available_bytes,
        used_space: row.used_bytes,
    }
}

} // verus!
