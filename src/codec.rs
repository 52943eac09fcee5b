//! The persisted layout of a process record. Numbers are written as twenty
//! decimal digits with leading zeros; a string is its length in characters,
//! written the same way, followed by its characters. A record is its PID,
//! its start time, a status letter (`R`, `S`, or `E` followed by the error
//! text), then its service name, project name and command.
use vstd::prelude::*;
use crate::registry::{ProcessInfo, ProcessStatus};
use crate::text::{chars_of, digit, digit_char, push_str, string_from_chars};

verus! {

/// Width of every number of the layout.
pub const WIDTH: usize = 20;

/// The value of digit character `c`, if it is one.
pub open spec fn digit_value(c: char) -> Option<int> {
    if c == '0' { Some(0) } else if c == '1' { Some(1) } else if c == '2' { Some(2) } else if c == '3' { Some(3) }
    else if c == '4' { Some(4) } else if c == '5' { Some(5) } else if c == '6' { Some(6) } else if c == '7' { Some(7) }
    else if c == '8' { Some(8) } else if c == '9' { Some(9) } else { None }
}

/// Every character of `ds` is a digit.
pub open spec fn all_digits(ds: Seq<char>) -> bool {
    forall|i: int| 0 <= i < ds.len() ==> (#[trigger] digit_value(ds[i])) is Some
}

/// The number that the digits `ds` write.
pub open spec fn value_of(ds: Seq<char>) -> int
    decreases ds.len(),
{
    if ds.len() == 0 {
        0
    } else {
        value_of(ds.drop_last()) * 10 + match digit_value(ds.last()) { Some(d) => d, None => 0 }
    }
}

/// Ten to the power `w`.
pub open spec fn pow10(w: nat) -> int
    decreases w,
{
    if w == 0 { 1 } else { 10 * pow10((w - 1) as nat) }
}

/// The last `w` decimal digits of `n`, leading zeros included.
pub open spec fn padded(n: nat, w: nat) -> Seq<char>
    decreases w,
{
    if w == 0 {
        Seq::empty()
    } else {
        padded(n / 10, (w - 1) as nat).push(digit_char((n % 10) as int))
    }
}

/// A string of the layout: its length, then its characters.
pub open spec fn field(s: Seq<char>) -> Seq<char> {
    padded(s.len(), WIDTH as nat) + s
}

/// The status part of the layout.
pub open spec fn status_text(s: ProcessStatus) -> Seq<char> {
    match s {
        ProcessStatus::Running => seq!['R'],
        ProcessStatus::Stopped => seq!['S'],
        ProcessStatus::Error(e) => seq!['E'] + field(e@),
    }
}

/// The layout of record `p`.
pub open spec fn record_text(p: ProcessInfo) -> Seq<char> {
    padded(p.pid as nat, WIDTH as nat) + padded(p.start_time as nat, WIDTH as nat) + status_text(p.status)
        + field(p.service_name@) + field(p.project_name@) + field(p.command@)
}

/// `a` and `b` have the same status, error text compared by its characters.
pub open spec fn same_status(a: ProcessStatus, b: ProcessStatus) -> bool {
    match (a, b) {
        (ProcessStatus::Running, ProcessStatus::Running) => true,
        (ProcessStatus::Stopped, ProcessStatus::Stopped) => true,
        (ProcessStatus::Error(x), ProcessStatus::Error(y)) => x@ == y@,
        _ => false,
    }
}

/// `a` and `b` agree in every field, strings compared by their characters.
pub open spec fn same_record(a: ProcessInfo, b: ProcessInfo) -> bool {
    &&& a.pid == b.pid
    &&& a.start_time == b.start_time
    &&& same_status(a.status, b.status)
    &&& a.service_name@ == b.service_name@
    &&& a.project_name@ == b.project_name@
    &&& a.command@ == b.command@
}

proof fn lemma_pow10_width()
    ensures
        pow10(WIDTH as nat) == 100000000000000000000int,
{
    reveal_with_fuel(pow10, 21);
}

proof fn lemma_padded_len(n: nat, w: nat)
    ensures
        padded(n, w).len() == w,
        all_digits(padded(n, w)),
    decreases w,
{
    if w > 0 {
        lemma_padded_len(n / 10, (w - 1) as nat);
        let p = padded(n, w);
        assert forall|i: int| 0 <= i < p.len() implies (#[trigger] digit_value(p[i])) is Some by {
            if i < w - 1 {
                assert(p[i] == padded(n / 10, (w - 1) as nat)[i]);
            }
        }
    }
}

/// Digits written at full width read back as the number.
proof fn lemma_value_of_padded(n: nat, w: nat)
    requires
        n < pow10(w),
    ensures
        value_of(padded(n, w)) == n,
    decreases w,
{
    if w > 0 {
        let m = n / 10;
        assert(m < pow10((w - 1) as nat)) by (nonlinear_arith)
            requires
                n < 10 * pow10((w - 1) as nat),
                m == n / 10,
        ;
        lemma_value_of_padded(m, (w - 1) as nat);
        let p = padded(n, w);
        assert(p.drop_last() =~= padded(m, (w - 1) as nat));
        assert(m * 10 + n % 10 == n) by (nonlinear_arith)
            requires
                m == n / 10,
        ;
    }
}

/// Reading digits and writing the number back at the same width gives the
/// same digits.
proof fn lemma_padded_of_value(ds: Seq<char>)
    requires
        all_digits(ds),
    ensures
        0 <= value_of(ds) < pow10(ds.len()),
        padded(value_of(ds) as nat, ds.len()) == ds,
    decreases ds.len(),
{
    if ds.len() > 0 {
        let d = ds.drop_last();
        assert(all_digits(d)) by {
            assert forall|i: int| 0 <= i < d.len() implies (#[trigger] digit_value(d[i])) is Some by {
                assert(digit_value(ds[i]) is Some);
            }
        }
        lemma_padded_of_value(d);
        let v = value_of(d);
        assert(digit_value(ds[ds.len() - 1]) is Some);
        let c = match digit_value(ds.last()) { Some(x) => x, None => 0 };
        assert(0 <= c < 10);
        let n = v * 10 + c;
        assert(n / 10 == v && n % 10 == c) by (nonlinear_arith)
            requires
                n == v * 10 + c,
                0 <= c < 10,
                0 <= v,
        ;
        assert(n < pow10(ds.len())) by (nonlinear_arith)
            requires
                n == v * 10 + c,
                0 <= c < 10,
                v < pow10((ds.len() - 1) as nat),
                pow10(ds.len()) == 10 * pow10((ds.len() - 1) as nat),
        ;
        assert(digit_char(c) == ds.last());
        assert(padded(n as nat, ds.len()) =~= ds);
    }
}

/// Appends the last `w` digits of `n`, leading zeros included.
fn push_padded(n: u64, w: usize, out: &mut Vec<char>)
    ensures
        final(out)@ == old(out)@ + padded(n as nat, w as nat),
    decreases w,
{
    if w > 0 {
        push_padded(n / 10, w - 1, out);
        out.push(digit(n % 10));
        assert(out@ =~= old(out)@ + padded(n as nat, w as nat));
    }
}

/// Appends `s` as a string of the layout.
fn push_field(s: &str, out: &mut Vec<char>)
    ensures
        final(out)@ == old(out)@ + field(s@),
{
    let cs = chars_of(s);
    push_padded(cs.len() as u64, WIDTH, out);
    push_str(s, out);
    assert(out@ =~= old(out)@ + field(s@));
}

/// The layout of `p`.
pub fn encode_record(p: &ProcessInfo) -> (r: String)
    ensures
        r@ == record_text(*p),
{
    let mut out: Vec<char> = Vec::new();
    push_padded(p.pid as u64, WIDTH, &mut out);
    push_padded(p.start_time, WIDTH, &mut out);
    match &p.status {
        ProcessStatus::Running => out.push('R'),
        ProcessStatus::Stopped => out.push('S'),
        ProcessStatus::Error(e) => {
            out.push('E');
            push_field(e.as_str(), &mut out);
        },
    }
    push_field(p.service_name.as_str(), &mut out);
    push_field(p.project_name.as_str(), &mut out);
    push_field(p.command.as_str(), &mut out);
    assert(out@ =~= record_text(*p));
    string_from_chars(&out)
}

/// The value of digit character `c`, if it is one.
fn read_digit(c: char) -> (r: Option<u8>)
    ensures
        match digit_value(c) {
            Some(d) => r == Some(d as u8),
            None => r is None,
        },
{
    match c {
        '0' => Some(0),
        '1' => Some(1),
        '2' => Some(2),
        '3' => Some(3),
        '4' => Some(4),
        '5' => Some(5),
        '6' => Some(6),
        '7' => Some(7),
        '8' => Some(8),
        '9' => Some(9),
        _ => None,
    }
}

/// Reads the number of `WIDTH` digits at `pos`.
fn read_number(t: &Vec<char>, pos: usize) -> (r: Option<u128>)
    ensures
        r is Some <==> pos + WIDTH <= t@.len() && all_digits(t@.subrange(pos as int, pos + WIDTH)),
        r matches Some(v) ==> v == value_of(t@.subrange(pos as int, pos + WIDTH)),
{
    if pos > t.len() || t.len() - pos < WIDTH {
        return None;
    }
    let n = t.len();
    let mut v: u128 = 0;
    let mut i: usize = 0;
    while i < WIDTH
        invariant
            n == t@.len(),
            pos + WIDTH <= t@.len(),
            i <= WIDTH,
            all_digits(t@.subrange(pos as int, pos + i)),
            v == value_of(t@.subrange(pos as int, pos + i)),
            v < pow10(i as nat),
        decreases WIDTH - i,
    {
        let ghost before = t@.subrange(pos as int, pos + i);
        let ghost after = t@.subrange(pos as int, pos + i + 1);
        assert(after.drop_last() =~= before);
        match read_digit(t[pos + i]) {
            None => {
                assert(digit_value(after[i as int]) is None);
                return None;
            },
            Some(d) => {
                proof {
                    lemma_pow10_width();
                    lemma_pow10_mono(i as nat, WIDTH as nat);
                }
                assert(v * 10 + d < pow10((i + 1) as nat)) by (nonlinear_arith)
                    requires
                        v < pow10(i as nat),
                        d < 10,
                        pow10((i + 1) as nat) == 10 * pow10(i as nat),
                ;
                assert(pow10((i + 1) as nat) <= 100000000000000000000int) by {
                    lemma_pow10_mono((i + 1) as nat, WIDTH as nat);
                }
                v = v * 10 + d as u128;
                assert forall|k: int| 0 <= k < after.len() implies (#[trigger] digit_value(after[k])) is Some by {
                    if k < i {
                        assert(after[k] == before[k]);
                    }
                }
            },
        }
        i += 1;
    }
    Some(v)
}

proof fn lemma_pow10_mono(a: nat, b: nat)
    requires
        a <= b,
    ensures
        1 <= pow10(a) <= pow10(b),
    decreases b,
{
    if b > 0 && a < b {
        lemma_pow10_mono(a, (b - 1) as nat);
    } else if a > 0 {
        lemma_pow10_mono((a - 1) as nat, (a - 1) as nat);
    }
}

/// The text has a well-formed string of the layout at `a`.
pub open spec fn field_at(t: Seq<char>, a: int) -> bool {
    &&& 0 <= a
    &&& a + WIDTH <= t.len()
    &&& all_digits(t.subrange(a, a + WIDTH))
    &&& a + WIDTH + value_of(t.subrange(a, a + WIDTH)) <= t.len()
}

/// Where the string of the layout at `a` ends.
pub open spec fn field_end(t: Seq<char>, a: int) -> int {
    a + WIDTH + value_of(t.subrange(a, a + WIDTH))
}

/// Reads the string of the layout at `pos`; returns it and where it ends.
fn read_field(t: &Vec<char>, pos: usize) -> (r: Option<(String, usize)>)
    ensures
        r is Some <==> field_at(t@, pos as int),
        r matches Some((s, e)) ==> e == field_end(t@, pos as int)
            && s@ == t@.subrange(pos + WIDTH, e as int),
{
    let len = match read_number(t, pos) {
        None => return None,
        Some(v) => v,
    };
    if len > (t.len() - pos - WIDTH) as u128 {
        return None;
    }
    let start = pos + WIDTH;
    let end = start + len as usize;
    let mut cs: Vec<char> = Vec::new();
    let mut i: usize = start;
    while i < end
        invariant
            start <= i <= end,
            end <= t@.len(),
            cs@ == t@.subrange(start as int, i as int),
        decreases end - i,
    {
        cs.push(t[i]);
        assert(cs@ =~= t@.subrange(start as int, i + 1));
        i += 1;
    }
    Some((string_from_chars(&cs), end))
}

/// Where the status part of the layout, starting at `2 * WIDTH`, ends.
pub open spec fn status_end(t: Seq<char>) -> Option<int> {
    let a = 2 * WIDTH as int;
    if a >= t.len() {
        None
    } else if t[a] == 'R' || t[a] == 'S' {
        Some(a + 1)
    } else if t[a] == 'E' && field_at(t, a + 1) {
        Some(field_end(t, a + 1))
    } else {
        None
    }
}

/// `t` is exactly one record of the layout.
pub open spec fn well_formed(t: Seq<char>) -> bool {
    &&& 2 * WIDTH <= t.len()
    &&& all_digits(t.subrange(0, WIDTH as int))
    &&& value_of(t.subrange(0, WIDTH as int)) <= u32::MAX
    &&& all_digits(t.subrange(WIDTH as int, 2 * WIDTH as int))
    &&& value_of(t.subrange(WIDTH as int, 2 * WIDTH as int)) <= u64::MAX
    &&& status_end(t) matches Some(b) && {
        &&& field_at(t, b)
        &&& field_at(t, field_end(t, b))
        &&& field_at(t, field_end(t, field_end(t, b)))
        &&& field_end(t, field_end(t, field_end(t, b))) == t.len()
    }
}

/// A string of the layout inside `t` at `a` reads back as that string.
proof fn lemma_field_in(t: Seq<char>, a: int, s: Seq<char>)
    requires
        0 <= a,
        a + field(s).len() <= t.len(),
        t.subrange(a, a + field(s).len()) == field(s),
        s.len() <= usize::MAX,
    ensures
        field_at(t, a),
        field_end(t, a) == a + field(s).len(),
        t.subrange(a + WIDTH, field_end(t, a)) == s,
{
    lemma_padded_len(s.len(), WIDTH as nat);
    lemma_pow10_width();
    lemma_value_of_padded(s.len(), WIDTH as nat);
    assert(t.subrange(a, a + WIDTH) =~= field(s).subrange(0, WIDTH as int));
    assert(field(s).subrange(0, WIDTH as int) =~= padded(s.len(), WIDTH as nat));
    let f = field(s);
    let u = t.subrange(a, a + f.len());
    assert(f.len() == WIDTH + s.len());
    assert(t.subrange(a + WIDTH, a + f.len()) =~= u.subrange(WIDTH as int, f.len() as int));
    assert(u.subrange(WIDTH as int, f.len() as int) =~= s);
}

/// The string of the layout at `a` is the field of what it holds.
proof fn lemma_field_read(t: Seq<char>, a: int)
    requires
        field_at(t, a),
    ensures
        field(t.subrange(a + WIDTH, field_end(t, a))) == t.subrange(a, field_end(t, a)),
        a + WIDTH <= field_end(t, a) <= t.len(),
{
    let ds = t.subrange(a, a + WIDTH);
    lemma_padded_of_value(ds);
    let s = t.subrange(a + WIDTH, field_end(t, a));
    assert(s.len() == value_of(ds));
    assert(field(s) =~= t.subrange(a, field_end(t, a)));
}

/// The layout of every record is well formed.
proof fn lemma_record_text_shape(p: ProcessInfo)
    requires
        p.service_name@.len() <= usize::MAX,
        p.project_name@.len() <= usize::MAX,
        p.command@.len() <= usize::MAX,
        p.status matches ProcessStatus::Error(e) ==> e@.len() <= usize::MAX,
    ensures
        well_formed(record_text(p)),
{
    let t = record_text(p);
    let w = WIDTH as int;
    lemma_pow10_width();
    lemma_padded_len(p.pid as nat, WIDTH as nat);
    lemma_padded_len(p.start_time as nat, WIDTH as nat);
    lemma_value_of_padded(p.pid as nat, WIDTH as nat);
    lemma_value_of_padded(p.start_time as nat, WIDTH as nat);
    assert(t.subrange(0, w) =~= padded(p.pid as nat, WIDTH as nat));
    assert(t.subrange(w, 2 * w) =~= padded(p.start_time as nat, WIDTH as nat));
    let st = status_text(p.status);
    let f1 = field(p.service_name@);
    let f2 = field(p.project_name@);
    let f3 = field(p.command@);
    lemma_padded_len(p.service_name@.len(), WIDTH as nat);
    lemma_padded_len(p.project_name@.len(), WIDTH as nat);
    lemma_padded_len(p.command@.len(), WIDTH as nat);
    let b = 2 * w + st.len();
    assert(t[2 * w] == st[0]);
    match p.status {
        ProcessStatus::Error(e) => {
            lemma_padded_len(e@.len(), WIDTH as nat);
            assert(t.subrange(2 * w + 1, b) =~= field(e@));
            lemma_field_in(t, 2 * w + 1, e@);
        },
        _ => {},
    }
    assert(status_end(t) == Some(b));
    assert(t.subrange(b, b + f1.len()) =~= f1);
    lemma_field_in(t, b, p.service_name@);
    let c = b + f1.len();
    assert(t.subrange(c, c + f2.len()) =~= f2);
    lemma_field_in(t, c, p.project_name@);
    let d = c + f2.len();
    assert(t.subrange(d, d + f3.len()) =~= f3);
    lemma_field_in(t, d, p.command@);
}

/// Reads the status part of the layout; returns it and where it ends.
fn read_status(t: &Vec<char>) -> (r: Option<(ProcessStatus, usize)>)
    ensures
        r is Some <==> status_end(t@) is Some,
        r matches Some((st, b)) ==> status_end(t@) == Some(b as int) && status_text(st) == t@.subrange(2 * WIDTH as int, b as int),
{
    let a = 2 * WIDTH;
    if a >= t.len() {
        return None;
    }
    if t[a] == 'R' {
        assert(status_text(ProcessStatus::Running) =~= t@.subrange(a as int, a + 1));
        Some((ProcessStatus::Running, a + 1))
    } else if t[a] == 'S' {
        assert(status_text(ProcessStatus::Stopped) =~= t@.subrange(a as int, a + 1));
        Some((ProcessStatus::Stopped, a + 1))
    } else if t[a] == 'E' {
        match read_field(t, a + 1) {
            None => None,
            Some((e, end)) => {
                proof {
                    lemma_field_read(t@, a + 1);
                    assert(status_text(ProcessStatus::Error(e)) =~= t@.subrange(a as int, end as int));
                }
                Some((ProcessStatus::Error(e), end))
            },
        }
    } else {
        None
    }
}

/// Reads a record written in the layout; `None` when `text` is not exactly
/// one record of it.
pub fn decode_record(text: &str) -> (r: Option<ProcessInfo>)
    ensures
        r is Some <==> well_formed(text@),
        r matches Some(p) ==> record_text(p) == text@,
{
    let t = chars_of(text);
    let w = WIDTH;
    let pid = match read_number(&t, 0) {
        None => return None,
        Some(v) => v,
    };
    if pid > u32::MAX as u128 {
        return None;
    }
    let start_time = match read_number(&t, w) {
        None => return None,
        Some(v) => v,
    };
    if start_time > u64::MAX as u128 {
        return None;
    }
    let (status, b) = match read_status(&t) {
        None => return None,
        Some(x) => x,
    };
    let (service_name, c) = match read_field(&t, b) {
        None => return None,
        Some(x) => x,
    };
    let (project_name, d) = match read_field(&t, c) {
        None => return None,
        Some(x) => x,
    };
    let (command, e) = match read_field(&t, d) {
        None => return None,
        Some(x) => x,
    };
    if e != t.len() {
        return None;
    }
    let p = ProcessInfo { pid: pid as u32, service_name, project_name, command, start_time: start_time as u64, status };
    proof {
        let tt = t@;
        lemma_padded_of_value(tt.subrange(0, w as int));
        lemma_padded_of_value(tt.subrange(w as int, 2 * w as int));
        lemma_field_read(tt, b as int);
        lemma_field_read(tt, c as int);
        lemma_field_read(tt, d as int);
        let st = tt.subrange(2 * w as int, b as int);
        assert(2 * w < b) by {
            if tt[2 * w as int] == 'E' {
                lemma_field_read(tt, 2 * w + 1);
            }
        }
        assert(tt =~= tt.subrange(0, w as int) + tt.subrange(w as int, 2 * w as int) + st + tt.subrange(b as int, c as int)
            + tt.subrange(c as int, d as int) + tt.subrange(d as int, e as int));
    }
    Some(p)
}

/// Writing a record in the layout and reading it back gives a record equal
/// to it in every field.
pub proof fn lemma_round_trip(p: ProcessInfo, q: ProcessInfo)
    requires
        p.service_name@.len() <= usize::MAX,
        p.project_name@.len() <= usize::MAX,
        p.command@.len() <= usize::MAX,
        p.status matches ProcessStatus::Error(e) ==> e@.len() <= usize::MAX,
        record_text(q) == record_text(p),
    ensures
        well_formed(record_text(p)),
        same_record(q, p),
{
    lemma_record_text_shape(p);
    let t = record_text(p);
    let w = WIDTH as int;
    lemma_pow10_width();
    lemma_padded_len(p.pid as nat, WIDTH as nat);
    lemma_padded_len(p.start_time as nat, WIDTH as nat);
    lemma_padded_len(q.pid as nat, WIDTH as nat);
    lemma_padded_len(q.start_time as nat, WIDTH as nat);
    lemma_value_of_padded(p.pid as nat, WIDTH as nat);
    lemma_value_of_padded(q.pid as nat, WIDTH as nat);
    lemma_value_of_padded(p.start_time as nat, WIDTH as nat);
    lemma_value_of_padded(q.start_time as nat, WIDTH as nat);
    assert(t.subrange(0, w) =~= padded(p.pid as nat, WIDTH as nat));
    assert(t.subrange(0, w) =~= padded(q.pid as nat, WIDTH as nat));
    assert(t.subrange(w, 2 * w) =~= padded(p.start_time as nat, WIDTH as nat));
    assert(t.subrange(w, 2 * w) =~= padded(q.start_time as nat, WIDTH as nat));
    assert(usize::MAX <= u64::MAX);
    lemma_padded_len(p.service_name@.len(), WIDTH as nat);
    lemma_padded_len(p.project_name@.len(), WIDTH as nat);
    lemma_padded_len(p.command@.len(), WIDTH as nat);
    match p.status {
        ProcessStatus::Error(e) => {
            lemma_padded_len(e@.len(), WIDTH as nat);
        },
        _ => {},
    }
    assert(record_text(p).len() < 100000000000000000000int);
    lemma_fields_agree(p, q);
}

/// Two records of one layout agree in status and strings.
proof fn lemma_fields_agree(p: ProcessInfo, q: ProcessInfo)
    requires
        record_text(p).len() < 100000000000000000000int,
        p.pid == q.pid,
        p.start_time == q.start_time,
        record_text(q) == record_text(p),
    ensures
        same_record(q, p),
{
    let t = record_text(p);
    let w = WIDTH as int;
    let sp = status_text(p.status);
    let sq = status_text(q.status);
    lemma_padded_len(p.pid as nat, WIDTH as nat);
    lemma_padded_len(p.start_time as nat, WIDTH as nat);
    // The text after the two numbers is the same for both records.
    let rp = sp + field(p.service_name@) + field(p.project_name@) + field(p.command@);
    let rq = sq + field(q.service_name@) + field(q.project_name@) + field(q.command@);
    assert(t.subrange(2 * w, t.len() as int) =~= rp);
    assert(record_text(q).subrange(2 * w, t.len() as int) =~= rq);
    assert(rp == rq);
    assert(rp[0] == sp[0] && rq[0] == sq[0]);
    let fp = field(p.service_name@) + field(p.project_name@) + field(p.command@);
    let fq = field(q.service_name@) + field(q.project_name@) + field(q.command@);
    match p.status {
        ProcessStatus::Error(e) => {
            match q.status {
                ProcessStatus::Error(eq) => {
                    assert(rp.subrange(1, rp.len() as int) =~= field(e@) + fp);
                    assert(rq.subrange(1, rq.len() as int) =~= field(eq@) + fq);
                    lemma_same_prefix_field(rp.subrange(1, rp.len() as int), e@, fp, eq@, fq);
                    lemma_three_fields(p, q, fp, fq);
                },
                _ => {},
            }
        },
        _ => {
            assert(q.status is Running <==> p.status is Running);
            assert(rp.subrange(1, rp.len() as int) =~= fp);
            assert(rq.subrange(1, rq.len() as int) =~= fq);
            lemma_three_fields(p, q, fp, fq);
        },
    }
}

/// Three consecutive strings of the layout determine each other.
proof fn lemma_three_fields(p: ProcessInfo, q: ProcessInfo, fp: Seq<char>, fq: Seq<char>)
    requires
        fp.len() < 100000000000000000000int,
        fp == field(p.service_name@) + field(p.project_name@) + field(p.command@),
        fq == field(q.service_name@) + field(q.project_name@) + field(q.command@),
        fp == fq,
    ensures
        p.service_name@ == q.service_name@,
        p.project_name@ == q.project_name@,
        p.command@ == q.command@,
{
    let a = field(p.project_name@) + field(p.command@);
    let b = field(q.project_name@) + field(q.command@);
    assert(fp =~= field(p.service_name@) + a);
    assert(fq =~= field(q.service_name@) + b);
    lemma_same_prefix_field(fp, p.service_name@, a, q.service_name@, b);
    lemma_same_prefix_field(a, p.project_name@, field(p.command@), q.project_name@, field(q.command@));
    lemma_same_prefix_field(field(p.command@), p.command@, Seq::empty(), q.command@, Seq::empty());
    assert(field(p.command@) =~= field(p.command@) + Seq::<char>::empty());
    assert(field(q.command@) =~= field(q.command@) + Seq::<char>::empty());
}

/// When one text is a string of the layout followed by `r1`, and also one
/// followed by `r2`, the two strings agree and so do the rests.
proof fn lemma_same_prefix_field(t: Seq<char>, s1: Seq<char>, r1: Seq<char>, s2: Seq<char>, r2: Seq<char>)
    requires
        t.len() < 100000000000000000000int,
        t == field(s1) + r1,
        t == field(s2) + r2,
    ensures
        s1 == s2,
        r1 == r2,
{
    lemma_pow10_width();
    lemma_padded_len(s1.len(), WIDTH as nat);
    lemma_padded_len(s2.len(), WIDTH as nat);
    assert(t.subrange(0, WIDTH as int) =~= padded(s1.len(), WIDTH as nat));
    assert(t.subrange(0, WIDTH as int) =~= padded(s2.len(), WIDTH as nat));
    lemma_value_of_padded(s1.len(), WIDTH as nat);
    lemma_value_of_padded(s2.len(), WIDTH as nat);
    assert(s1.len() == s2.len());
    let n = WIDTH + s1.len();
    assert(t.subrange(WIDTH as int, n) =~= s1);
    assert(t.subrange(WIDTH as int, n) =~= s2);
    assert(t.subrange(n, t.len() as int) =~= r1);
    assert(t.subrange(n, t.len() as int) =~= r2);
}

} // verus!
