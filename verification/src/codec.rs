use vstd::prelude::*;
use vstd::string::StrSliceExecFns;
use crate::record::{
    BenchResultView, BenchmarkResult, MeasurementRecord, Outcome, OutcomeView, RecordView,
};

verus! {

// A record is persisted as one piece of text. Every variable-length part is
// length-prefixed — its character count in decimal, a colon, then the
// characters themselves — so arbitrary ids, names, payloads and error
// descriptions round-trip without any escaping:
//
//   'S' id triple count ':' (name metrics)*      on success
//   'F' id triple error                          on failure
//
// where id, triple, name, metrics and error are length-prefixed fields.
/// The ten decimal digit characters.
pub open spec fn is_digit(c: char) -> bool {
    c == '0' || c == '1' || c == '2' || c == '3' || c == '4' || c == '5' || c == '6' || c == '7'
        || c == '8' || c == '9'
}

/// The digit character for a value below ten.
pub open spec fn digit_char(d: nat) -> char {
    if d == 0 {
        '0'
    } else if d == 1 {
        '1'
    } else if d == 2 {
        '2'
    } else if d == 3 {
        '3'
    } else if d == 4 {
        '4'
    } else if d == 5 {
        '5'
    } else if d == 6 {
        '6'
    } else if d == 7 {
        '7'
    } else if d == 8 {
        '8'
    } else {
        '9'
    }
}

/// The value of one digit character.
pub open spec fn digit_val(c: char) -> nat {
    if c == '0' {
        0
    } else if c == '1' {
        1
    } else if c == '2' {
        2
    } else if c == '3' {
        3
    } else if c == '4' {
        4
    } else if c == '5' {
        5
    } else if c == '6' {
        6
    } else if c == '7' {
        7
    } else if c == '8' {
        8
    } else {
        9
    }
}

/// Every character of `s` is a decimal digit.
pub open spec fn all_digits(s: Seq<char>) -> bool {
    forall|i: int| 0 <= i < s.len() ==> is_digit(#[trigger] s[i])
}

/// Decimal digits of `n`, most significant first, without leading zeros.
pub open spec fn enc_nat(n: nat) -> Seq<char>
    decreases n,
{
    if n < 10 {
        seq![digit_char(n)]
    } else {
        enc_nat(n / 10).push(digit_char(n % 10))
    }
}

/// The value a digit string denotes.
pub open spec fn val_of(digits: Seq<char>) -> nat
    decreases digits.len(),
{
    if digits.len() == 0 {
        0
    } else {
        val_of(digits.drop_last()) * 10 + digit_val(digits.last())
    }
}

/// A length prefix: the decimal length, terminated by a colon.
pub open spec fn enc_len(n: nat) -> Seq<char> {
    enc_nat(n) + seq![':']
}

/// A length-prefixed field.
pub open spec fn enc_str(s: Seq<char>) -> Seq<char> {
    enc_len(s.len()) + s
}

/// One benchmark's name and metrics, as two fields.
pub open spec fn enc_result(b: BenchResultView) -> Seq<char> {
    enc_str(b.name) + enc_str(b.metrics)
}

/// All benchmark results, in order.
pub open spec fn enc_results(rs: Seq<BenchResultView>) -> Seq<char>
    decreases rs.len(),
{
    if rs.len() == 0 {
        Seq::empty()
    } else {
        enc_result(rs[0]) + enc_results(rs.drop_first())
    }
}

/// The full encoding of one record.
pub open spec fn enc_record(v: RecordView) -> Seq<char> {
    match v.outcome {
        OutcomeView::Success(rs) => seq!['S'] + enc_str(v.revision_id) + enc_str(v.triple)
            + enc_len(rs.len()) + enc_results(rs),
        OutcomeView::Failure(e) => seq!['F'] + enc_str(v.revision_id) + enc_str(v.triple)
            + enc_str(e),
    }
}

/// Relies on String::push: appends exactly the given character.
#[verifier::external_body]
fn push_char(s: &mut String, c: char)
    ensures
        final(s)@ == old(s)@.push(c),
{
    s.push(c)
}

/// Appends one digit character.
fn push_digit(s: &mut String, d: usize)
    requires
        d < 10,
    ensures
        final(s)@ == old(s)@.push(digit_char(d as nat)),
{
    if d == 0 {
        push_char(s, '0')
    } else if d == 1 {
        push_char(s, '1')
    } else if d == 2 {
        push_char(s, '2')
    } else if d == 3 {
        push_char(s, '3')
    } else if d == 4 {
        push_char(s, '4')
    } else if d == 5 {
        push_char(s, '5')
    } else if d == 6 {
        push_char(s, '6')
    } else if d == 7 {
        push_char(s, '7')
    } else if d == 8 {
        push_char(s, '8')
    } else {
        push_char(s, '9')
    }
}

/// Appends the decimal digits of `n`.
fn push_nat(s: &mut String, n: usize)
    ensures
        final(s)@ == old(s)@ + enc_nat(n as nat),
    decreases n,
{
    if n < 10 {
        push_digit(s, n);
        proof {
            assert(old(s)@ + enc_nat(n as nat) =~= old(s)@.push(digit_char(n as nat)));
        }
    } else {
        push_nat(s, n / 10);
        push_digit(s, n % 10);
        proof {
            assert(old(s)@ + enc_nat(n as nat) =~= (old(s)@ + enc_nat(n as nat / 10)).push(
                digit_char(n as nat % 10),
            ));
        }
    }
}

/// Appends one length-prefixed field.
fn push_field(s: &mut String, f: &String)
    ensures
        final(s)@ == old(s)@ + enc_str(f@),
{
    let flen = f.as_str().unicode_len();
    push_nat(s, flen);
    push_char(s, ':');
    s.append(f.as_str());
    proof {
        assert(old(s)@ + enc_str(f@) =~= ((old(s)@ + enc_nat(flen as nat)).push(':')) + f@);
    }
}

/// Serializes a record into its persisted text form.
pub fn encode_record(rec: &MeasurementRecord) -> (s: String)
    ensures
        s@ == enc_record(rec@),
{
    let mut s = String::new();
    match &rec.outcome {
        Outcome::Failure(error) => {
            push_char(&mut s, 'F');
            push_field(&mut s, &rec.revision_id);
            push_field(&mut s, &rec.triple);
            push_field(&mut s, error);
            proof {
                assert(s@ =~= enc_record(rec@));
            }
        },
        Outcome::Success(results) => {
            let ghost rsv = results@.map_values(|b: BenchmarkResult| b@);
            push_char(&mut s, 'S');
            push_field(&mut s, &rec.revision_id);
            push_field(&mut s, &rec.triple);
            push_nat(&mut s, results.len());
            push_char(&mut s, ':');
            let ghost prefix = s@;
            let mut i: usize = 0;
            while i < results.len()
                invariant
                    i <= results@.len(),
                    rsv == results@.map_values(|b: BenchmarkResult| b@),
                    s@ == prefix + enc_results(rsv.take(i as int)),
                decreases results@.len() - i,
            {
                push_field(&mut s, &results[i].name);
                push_field(&mut s, &results[i].metrics);
                proof {
                    let b = results@[i as int]@;
                    assert(rsv.take(i + 1) =~= rsv.take(i as int).push(b));
                    lemma_enc_results_snoc(rsv.take(i as int), b);
                    assert(enc_result(b) == enc_str(b.name) + enc_str(b.metrics));
                    assert(s@ =~= prefix + enc_results(rsv.take(i + 1)));
                }
                i = i + 1;
            }
            proof {
                assert(rsv.take(rsv.len() as int) =~= rsv);
                assert(s@ =~= enc_record(rec@));
            }
        },
    }
    s
}

/// Appending one result extends the encoding at the end.
proof fn lemma_enc_results_snoc(rs: Seq<BenchResultView>, b: BenchResultView)
    ensures
        enc_results(rs.push(b)) == enc_results(rs) + enc_result(b),
    decreases rs.len(),
{
    if rs.len() == 0 {
        assert(rs.push(b)[0] == b);
        assert(rs.push(b).drop_first() =~= Seq::<BenchResultView>::empty());
        assert(enc_results(Seq::<BenchResultView>::empty()) == Seq::<char>::empty());
        assert(enc_results(rs.push(b)) == enc_result(b) + enc_results(
            Seq::<BenchResultView>::empty(),
        ));
        assert(enc_results(rs.push(b)) =~= enc_results(rs) + enc_result(b));
    } else {
        assert(rs.push(b)[0] == rs[0]);
        assert(rs.push(b).drop_first() =~= rs.drop_first().push(b));
        lemma_enc_results_snoc(rs.drop_first(), b);
        assert(enc_results(rs.push(b)) == enc_result(rs[0]) + enc_results(
            rs.drop_first().push(b),
        ));
        assert(enc_results(rs) == enc_result(rs[0]) + enc_results(rs.drop_first()));
        assert(enc_result(rs[0]) + (enc_results(rs.drop_first()) + enc_result(b)) =~= (enc_result(
            rs[0],
        ) + enc_results(rs.drop_first())) + enc_result(b));
        assert(enc_results(rs.push(b)) =~= enc_results(rs) + enc_result(b));
    }
}

/// Shape of a decimal encoding: nonempty, all digits, and it starts with
/// '0' only for zero itself.
proof fn lemma_enc_nat_shape(n: nat)
    ensures
        enc_nat(n).len() >= 1,
        all_digits(enc_nat(n)),
        (enc_nat(n)[0] == '0') <==> n == 0,
    decreases n,
{
    if n < 10 {
        assert(is_digit(enc_nat(n)[0]));
    } else {
        lemma_enc_nat_shape(n / 10);
        assert(enc_nat(n)[0] == enc_nat(n / 10)[0]);
        assert forall|i: int| 0 <= i < enc_nat(n).len() implies is_digit(
            #[trigger] enc_nat(n)[i],
        ) by {
            if i < enc_nat(n / 10).len() {
                assert(enc_nat(n)[i] == enc_nat(n / 10)[i]);
            } else {
                assert(enc_nat(n)[i] == digit_char(n % 10));
            }
        }
    }
}

/// The decimal encoding denotes the number itself.
proof fn lemma_val_enc_nat(n: nat)
    ensures
        val_of(enc_nat(n)) == n,
    decreases n,
{
    if n < 10 {
        assert(enc_nat(n).drop_last() =~= Seq::<char>::empty());
        assert(val_of(Seq::<char>::empty()) == 0);
        assert(enc_nat(n).last() == digit_char(n));
        assert(val_of(enc_nat(n)) == 0 * 10 + digit_val(digit_char(n)));
    } else {
        lemma_val_enc_nat(n / 10);
        assert(enc_nat(n).drop_last() =~= enc_nat(n / 10));
        assert(enc_nat(n).last() == digit_char(n % 10));
        assert(val_of(enc_nat(n)) == (n / 10) * 10 + n % 10);
    }
}

/// A digit string without a leading zero denotes a positive number.
proof fn lemma_val_pos(d: Seq<char>)
    requires
        d.len() >= 1,
        all_digits(d),
        d[0] != '0',
    ensures
        val_of(d) >= 1,
    decreases d.len(),
{
    if d.len() == 1 {
        assert(is_digit(d[0]));
    } else {
        lemma_val_pos(d.drop_last());
    }
}

/// A canonical digit string (no leading zero, or just "0") is the decimal
/// encoding of its own value.
proof fn lemma_enc_of_digits(d: Seq<char>)
    requires
        d.len() >= 1,
        all_digits(d),
        d[0] != '0' || d.len() == 1,
    ensures
        enc_nat(val_of(d)) == d,
    decreases d.len(),
{
    if d.len() == 1 {
        assert(d.drop_last() =~= Seq::<char>::empty());
        assert(val_of(Seq::<char>::empty()) == 0);
        assert(d.last() == d[0]);
        assert(val_of(d) == 0 * 10 + digit_val(d[0]));
        assert(is_digit(d[0]));
        assert(digit_char(digit_val(d[0])) == d[0]);
        assert(enc_nat(val_of(d)) =~= d);
    } else {
        let dp = d.drop_last();
        assert(dp[0] == d[0]);
        lemma_val_pos(dp);
        lemma_enc_of_digits(dp);
        let q = val_of(dp);
        let v = val_of(d);
        assert(is_digit(d.last()));
        assert(v == q * 10 + digit_val(d.last()));
        assert(digit_val(d.last()) < 10);
        assert(v / 10 == q && v % 10 == digit_val(d.last())) by (nonlinear_arith)
            requires
                v == q * 10 + digit_val(d.last()),
                digit_val(d.last()) < 10,
                q >= 1,
        ;
        assert(v >= 10) by (nonlinear_arith)
            requires
                v == q * 10 + digit_val(d.last()),
                q >= 1,
        ;
        assert(enc_nat(v) == enc_nat(v / 10).push(digit_char(v % 10)));
        assert(digit_char(digit_val(d.last())) == d.last());
        assert(enc_nat(v) =~= d);
    }
}

/// A digit-string prefix never denotes more than the whole string.
proof fn lemma_val_take_le(d: Seq<char>, k: int)
    requires
        0 <= k <= d.len(),
    ensures
        val_of(d.take(k)) <= val_of(d),
    decreases d.len() - k,
{
    if k == d.len() {
        assert(d.take(k) =~= d);
    } else {
        lemma_val_take_le(d, k + 1);
        assert(d.take(k + 1).drop_last() =~= d.take(k));
        assert(d.take(k + 1).last() == d[k]);
        assert(val_of(d.take(k + 1)) == val_of(d.take(k)) * 10 + digit_val(d[k]));
    }
}

/// Every encoded result list is at least as long as the list itself.
proof fn lemma_enc_results_len(rs: Seq<BenchResultView>)
    ensures
        enc_results(rs).len() >= rs.len(),
    decreases rs.len(),
{
    if rs.len() > 0 {
        lemma_enc_results_len(rs.drop_first());
        lemma_enc_nat_shape(rs[0].name.len());
        lemma_enc_nat_shape(rs[0].metrics.len());
    }
}

/// Where a length prefix `enc_len(n)` sits at `pos`, the digit region and
/// the terminating colon are pinned down character by character.
proof fn lemma_len_region(v: Seq<char>, pos: int, n: nat, rest: Seq<char>)
    requires
        0 <= pos <= v.len(),
        v.skip(pos) == enc_len(n) + rest,
    ensures
        enc_nat(n).len() >= 1,
        pos + enc_nat(n).len() + 1 <= v.len(),
        forall|t: int|
            0 <= t < enc_nat(n).len() ==> v[pos + t] == enc_nat(n)[t] && is_digit(
                #[trigger] v[pos + t],
            ),
        v[pos] == enc_nat(n)[0],
        is_digit(v[pos]),
        v[pos + enc_nat(n).len()] == ':',
{
    lemma_enc_nat_shape(n);
    let l = enc_nat(n).len() as int;
    assert(v.skip(pos).len() == v.len() - pos);
    assert forall|t: int| 0 <= t < l implies v[pos + t] == enc_nat(n)[t] && is_digit(
        #[trigger] v[pos + t],
    ) by {
        assert(v.skip(pos)[t] == v[pos + t]);
        assert((enc_len(n) + rest)[t] == enc_nat(n)[t]);
    }
    assert(v.skip(pos)[l] == v[pos + l]);
    assert((enc_len(n) + rest)[l] == ':');
    assert(v[pos + 0] == enc_nat(n)[0] && is_digit(v[pos + 0]));
    assert(v[pos] == enc_nat(n)[0]);
}

/// Exec digit test, mirroring `is_digit` / `digit_val`.
fn digit_of(c: char) -> (r: Option<usize>)
    ensures
        match r {
            Some(d) => is_digit(c) && d < 10 && d as nat == digit_val(c),
            None => !is_digit(c),
        },
{
    match c {
        '0' => Some(0),
        '1' => Some(1),
        '2' => Some(2),
        '3' => Some(3),
        '4' => Some(4),
        '5' => Some(5),
        '6' => Some(6),
        '7' => Some(7),
        '8' => Some(8),
        '9' => Some(9),
        _ => None,
    }
}

/// Scans the digit run starting inside `v` and accumulates its value.
/// Returns the value and the first position past the run, or nothing when
/// the value grows past the input length (no field of a valid input can be
/// that long).
fn scan_digits(v: &Vec<char>, pos: usize, i: usize, acc: usize) -> (r: Option<(usize, usize)>)
    requires
        pos <= i <= v@.len(),
        all_digits(v@.subrange(pos as int, i as int)),
        acc as nat == val_of(v@.subrange(pos as int, i as int)),
        acc <= v@.len(),
    ensures
        r matches Some((acc2, j)) ==> {
            &&& i <= j <= v@.len()
            &&& all_digits(v@.subrange(pos as int, j as int))
            &&& acc2 as nat == val_of(v@.subrange(pos as int, j as int))
            &&& acc2 <= v@.len()
            &&& (j == v@.len() || !is_digit(v@[j as int]))
        },
        r is None ==> exists|j: int|
            pos < j <= v@.len() && all_digits(#[trigger] v@.subrange(pos as int, j)) && val_of(
                v@.subrange(pos as int, j),
            ) > v@.len(),
    decreases v@.len() - i,
{
    if i == v.len() {
        return Some((acc, i));
    }
    match digit_of(v[i]) {
        None => Some((acc, i)),
        Some(d) => {
            proof {
                assert(v@.subrange(pos as int, i + 1).drop_last() =~= v@.subrange(
                    pos as int,
                    i as int,
                ));
                assert(v@.subrange(pos as int, i + 1).last() == v@[i as int]);
                assert(val_of(v@.subrange(pos as int, i + 1)) == (acc as nat) * 10 + digit_val(
                    v@[i as int],
                ));
                assert forall|t: int| 0 <= t < i + 1 - pos implies is_digit(
                    #[trigger] v@.subrange(pos as int, i + 1)[t],
                ) by {
                    if t < i - pos {
                        assert(v@.subrange(pos as int, i + 1)[t] == v@.subrange(
                            pos as int,
                            i as int,
                        )[t]);
                    }
                }
            }
            match acc.checked_mul(10) {
                None => {
                    proof {
                        assert(val_of(v@.subrange(pos as int, i + 1)) > v@.len());
                    }
                    None
                },
                Some(m) => {
                    match m.checked_add(d) {
                        None => {
                            proof {
                                assert(val_of(v@.subrange(pos as int, i + 1)) > v@.len());
                            }
                            None
                        },
                        Some(a2) => {
                            if a2 > v.len() {
                                proof {
                                    assert(val_of(v@.subrange(pos as int, i + 1)) > v@.len());
                                }
                                None
                            } else {
                                scan_digits(v, pos, i + 1, a2)
                            }
                        },
                    }
                },
            }
        },
    }
}

/// Parses one length prefix: a canonical decimal number terminated by a
/// colon. Exact: it succeeds, with the number and the position past the
/// colon, precisely on inputs that continue with some `enc_len(n)` whose
/// value fits the input, and it never reads past the prefix.
fn parse_len(v: &Vec<char>, pos: usize) -> (r: Option<(usize, usize)>)
    requires
        pos <= v@.len(),
    ensures
        r matches Some((n, p)) ==> pos < p <= v@.len() && v@.subrange(pos as int, p as int)
            == enc_len(n as nat),
        forall|n: nat, rest: Seq<char>|
            n <= v@.len() && v@.skip(pos as int) == #[trigger] (enc_len(n) + rest) ==> (r matches
            Some((n2, p2)) && n2 as nat == n && p2 == pos + enc_len(n).len()),
{
    let len = v.len();
    if pos == len {
        proof {
            assert forall|n: nat, rest: Seq<char>|
                !(n <= v@.len() && v@.skip(pos as int) == #[trigger] (enc_len(n) + rest)) by {
                if v@.skip(pos as int) == enc_len(n) + rest {
                    lemma_len_region(v@, pos as int, n, rest);
                }
            }
        }
        return None;
    }
    match digit_of(v[pos]) {
        None => {
            proof {
                assert forall|n: nat, rest: Seq<char>|
                    !(n <= v@.len() && v@.skip(pos as int) == #[trigger] (enc_len(n) + rest)) by {
                    if v@.skip(pos as int) == enc_len(n) + rest {
                        lemma_len_region(v@, pos as int, n, rest);
                        assert(is_digit(v@[pos as int]));
                    }
                }
            }
            None
        },
        Some(d0) => {
            if d0 == 0 {
                // Canonical zero: exactly "0:".
                if pos + 1 < len && v[pos + 1] == ':' {
                    proof {
                        assert(v@[pos as int] == '0');
                        assert(enc_nat(0) =~= seq!['0']);
                        assert(v@.subrange(pos as int, pos + 2) =~= enc_len(0));
                        assert forall|n: nat, rest: Seq<char>|
                            n <= v@.len() && v@.skip(pos as int) == #[trigger] (enc_len(n)
                                + rest) implies (0 as nat == n && pos + 2 == pos + enc_len(
                            n,
                        ).len()) by {
                            lemma_len_region(v@, pos as int, n, rest);
                            assert(enc_nat(n)[0] == v@[pos as int]);
                            lemma_enc_nat_shape(n);
                            assert(n == 0);
                            assert(enc_nat(0) =~= seq!['0']);
                        }
                    }
                    Some((0, pos + 2))
                } else {
                    proof {
                        assert(v@[pos as int] == '0');
                        assert forall|n: nat, rest: Seq<char>|
                            !(n <= v@.len() && v@.skip(pos as int) == #[trigger] (enc_len(n)
                                + rest)) by {
                            if v@.skip(pos as int) == enc_len(n) + rest {
                                lemma_len_region(v@, pos as int, n, rest);
                                assert(enc_nat(n)[0] == v@[pos as int]);
                                lemma_enc_nat_shape(n);
                                assert(n == 0);
                                assert(enc_nat(0) =~= seq!['0']);
                                assert(v@[pos + 1] == ':');
                            }
                        }
                    }
                    None
                }
            } else {
                proof {
                    assert(v@.subrange(pos as int, pos + 1) =~= seq![v@[pos as int]]);
                    assert(v@.subrange(pos as int, pos + 1).drop_last() =~= Seq::<char>::empty());
                    assert(val_of(Seq::<char>::empty()) == 0);
                    assert(v@.subrange(pos as int, pos + 1).last() == v@[pos as int]);
                    assert(val_of(v@.subrange(pos as int, pos + 1)) == 0 * 10 + digit_val(
                        v@[pos as int],
                    ));
                }
                if d0 > len {
                    proof {
                        assert forall|n: nat, rest: Seq<char>|
                            !(n <= v@.len() && v@.skip(pos as int) == #[trigger] (enc_len(n)
                                + rest)) by {
                            if n <= v@.len() && v@.skip(pos as int) == enc_len(n) + rest {
                                lemma_len_region(v@, pos as int, n, rest);
                                assert(enc_nat(n)[0] == v@[pos as int]);
                                lemma_val_take_le(enc_nat(n), 1);
                                assert(enc_nat(n).take(1) =~= seq![v@[pos as int]]);
                                assert(enc_nat(n).take(1).drop_last() =~= Seq::<char>::empty());
                                assert(val_of(enc_nat(n).take(1)) == 0 * 10 + digit_val(
                                    v@[pos as int],
                                ));
                                lemma_val_enc_nat(n);
                            }
                        }
                    }
                    return None;
                }
                let scanned = scan_digits(v, pos, pos + 1, d0);
                match scanned {
                    None => {
                        proof {
                            let j = choose|j: int|
                                pos < j <= v@.len() && all_digits(
                                    #[trigger] v@.subrange(pos as int, j),
                                ) && val_of(v@.subrange(pos as int, j)) > v@.len();
                            assert forall|n: nat, rest: Seq<char>|
                                !(n <= v@.len() && v@.skip(pos as int) == #[trigger] (enc_len(n)
                                    + rest)) by {
                                if n <= v@.len() && v@.skip(pos as int) == enc_len(n) + rest {
                                    lemma_len_region(v@, pos as int, n, rest);
                                    let l = enc_nat(n).len() as int;
                                    if j > pos + l {
                                        assert(is_digit(v@.subrange(pos as int, j)[pos + l
                                            - pos]));
                                        assert(v@[pos + l] == ':');
                                    } else {
                                        assert forall|t: int| 0 <= t < j - pos implies v@.subrange(
                                            pos as int,
                                            j,
                                        )[t] == enc_nat(n).take(j - pos)[t] by {
                                            assert(v@[pos + t] == enc_nat(n)[t]);
                                        }
                                        assert(v@.subrange(pos as int, j) =~= enc_nat(n).take(
                                            j - pos,
                                        ));
                                        lemma_val_take_le(enc_nat(n), j - pos);
                                        lemma_val_enc_nat(n);
                                    }
                                }
                            }
                        }
                        None
                    },
                    Some((acc, end)) => {
                        if end == len || v[end] != ':' {
                            proof {
                                assert forall|n: nat, rest: Seq<char>|
                                    !(n <= v@.len() && v@.skip(pos as int) == #[trigger] (enc_len(
                                        n,
                                    ) + rest)) by {
                                    if n <= v@.len() && v@.skip(pos as int) == enc_len(n) + rest {
                                        lemma_len_region(v@, pos as int, n, rest);
                                        let l = enc_nat(n).len() as int;
                                        if end > pos + l {
                                            assert(is_digit(v@.subrange(pos as int, end as int)[pos
                                                + l - pos]));
                                            assert(v@[pos + l] == ':');
                                        } else if end < pos + l {
                                            assert(v@[pos + (end - pos)] == enc_nat(n)[end - pos]
                                                && is_digit(v@[pos + (end - pos)]));
                                            assert(is_digit(v@[end as int]));
                                        }
                                    }
                                }
                            }
                            None
                        } else {
                            let ghost d = v@.subrange(pos as int, end as int);
                            proof {
                                assert(d[0] == v@[pos as int]);
                                assert(digit_val(v@[pos as int]) == d0 as nat);
                                assert(d[0] != '0');
                                lemma_enc_of_digits(d);
                                assert(enc_nat(acc as nat) == d);
                                assert(v@.subrange(pos as int, end + 1) =~= d + seq![':']);
                                assert(v@.subrange(pos as int, end + 1) == enc_len(acc as nat));
                                assert forall|n: nat, rest: Seq<char>|
                                    n <= v@.len() && v@.skip(pos as int) == #[trigger] (enc_len(n)
                                        + rest) implies (acc as nat == n && end + 1 == pos
                                    + enc_len(n).len()) by {
                                    lemma_len_region(v@, pos as int, n, rest);
                                    let l = enc_nat(n).len() as int;
                                    if end > pos + l {
                                        assert(is_digit(v@.subrange(pos as int, end as int)[pos + l
                                            - pos]));
                                        assert(v@[pos + l] == ':');
                                    }
                                    if end < pos + l {
                                        assert(v@[pos + (end - pos)] == enc_nat(n)[end - pos]
                                            && is_digit(v@[pos + (end - pos)]));
                                        assert(is_digit(v@[end as int]));
                                    }
                                    assert(end == pos + l);
                                    assert forall|t: int| 0 <= t < l implies d[t] == enc_nat(
                                        n,
                                    )[t] by {
                                        assert(v@[pos + t] == enc_nat(n)[t]);
                                    }
                                    assert(d =~= enc_nat(n));
                                    lemma_val_enc_nat(n);
                                }
                            }
                            Some((acc, end + 1))
                        }
                    },
                }
            }
        },
    }
}

/// Whatever follows a known prefix of a split can be addressed directly.
proof fn lemma_skip_concat(v: Seq<char>, pos: int, a: Seq<char>, b: Seq<char>)
    requires
        0 <= pos <= v.len(),
        v.skip(pos) == a + b,
    ensures
        0 <= pos + a.len() <= v.len(),
        v.skip(pos + a.len()) == b,
{
    assert(v.skip(pos).len() == v.len() - pos);
    assert forall|t: int| 0 <= t < v.len() - pos - a.len() implies v.skip(pos + a.len())[t]
        == b[t] by {
        assert(v.skip(pos + a.len())[t] == v[pos + a.len() + t]);
        assert(v.skip(pos)[a.len() + t] == v[pos + a.len() + t]);
        assert((a + b)[a.len() + t] == b[t]);
    }
    assert(v.skip(pos + a.len()) =~= b);
}

/// Builds a String out of the characters of `v` between `from` and `to`.
fn string_range(v: &Vec<char>, from: usize, to: usize) -> (s: String)
    requires
        from <= to <= v@.len(),
    ensures
        s@ == v@.subrange(from as int, to as int),
{
    let mut s = String::new();
    proof {
        assert(v@.subrange(from as int, from as int) =~= Seq::<char>::empty());
    }
    let mut j: usize = from;
    while j < to
        invariant
            from <= j <= to <= v@.len(),
            s@ == v@.subrange(from as int, j as int),
        decreases to - j,
    {
        push_char(&mut s, v[j]);
        proof {
            assert(v@.subrange(from as int, j + 1) =~= v@.subrange(from as int, j as int).push(
                v@[j as int],
            ));
        }
        j = j + 1;
    }
    s
}

/// Parses one length-prefixed field. Exact: it succeeds, handing back the
/// field and the position past it, precisely on inputs that continue with
/// some `enc_str(x)`, and it never reads past the field.
fn parse_field(v: &Vec<char>, pos: usize) -> (r: Option<(String, usize)>)
    requires
        pos <= v@.len(),
    ensures
        r matches Some(fp) ==> pos < fp.1 <= v@.len() && v@.subrange(pos as int, fp.1 as int)
            == enc_str(fp.0@),
        forall|x: Seq<char>, rest: Seq<char>|
            v@.skip(pos as int) == #[trigger] (enc_str(x) + rest) ==> (r matches Some(fp2)
                && fp2.0@ == x && fp2.1 == pos + enc_str(x).len()),
{
    match parse_len(v, pos) {
        None => {
            proof {
                assert forall|x: Seq<char>, rest: Seq<char>|
                    v@.skip(pos as int) != #[trigger] (enc_str(x) + rest) by {
                    if v@.skip(pos as int) == enc_str(x) + rest {
                        assert(enc_str(x) + rest =~= enc_len(x.len()) + (x + rest));
                        assert(v@.skip(pos as int).len() == v@.len() - pos);
                        assert(x.len() <= v@.len());
                    }
                }
            }
            None
        },
        Some((n, p)) => {
            if v.len() - p < n {
                proof {
                    assert forall|x: Seq<char>, rest: Seq<char>|
                        v@.skip(pos as int) != #[trigger] (enc_str(x) + rest) by {
                        if v@.skip(pos as int) == enc_str(x) + rest {
                            assert(enc_str(x) + rest =~= enc_len(x.len()) + (x + rest));
                            assert(v@.skip(pos as int).len() == v@.len() - pos);
                            assert(x.len() <= v@.len());
                            assert(n as nat == x.len() && p == pos + enc_len(x.len()).len());
                        }
                    }
                }
                None
            } else {
                let f = string_range(v, p, p + n);
                proof {
                    assert(v@.subrange(pos as int, p + n) =~= v@.subrange(pos as int, p as int)
                        + v@.subrange(p as int, p + n));
                    assert(v@.subrange(pos as int, p + n) == enc_str(f@));
                    assert forall|x: Seq<char>, rest: Seq<char>|
                        v@.skip(pos as int) == #[trigger] (enc_str(x) + rest) implies (f@ == x && p
                        + n == pos + enc_str(x).len()) by {
                        assert(enc_str(x) + rest =~= enc_len(x.len()) + (x + rest));
                        assert(v@.skip(pos as int).len() == v@.len() - pos);
                        assert(x.len() <= v@.len());
                        assert(n as nat == x.len() && p == pos + enc_len(x.len()).len());
                        lemma_skip_concat(v@, pos as int, enc_len(x.len()), x + rest);
                        assert forall|t: int| 0 <= t < n implies f@[t] == x[t] by {
                            assert(v@.skip(p as int)[t] == v@[p + t]);
                            assert((x + rest)[t] == x[t]);
                            assert(f@[t] == v@.subrange(p as int, p + n)[t]);
                        }
                        assert(f@ =~= x);
                    }
                }
                Some((f, p + n))
            }
        },
    }
}

/// Turns a persisted line back into its characters.
fn to_chars(s: &str) -> (v: Vec<char>)
    ensures
        v@ == s@,
{
    let n = s.unicode_len();
    let mut v: Vec<char> = Vec::new();
    let mut i: usize = 0;
    while i < n
        invariant
            n == s@.len(),
            i <= n,
            v@ == s@.take(i as int),
        decreases n - i,
    {
        v.push(s.get_char(i));
        proof {
            assert(s@.take(i + 1) =~= s@.take(i as int).push(s@[i as int]));
        }
        i = i + 1;
    }
    proof {
        assert(s@.take(n as int) =~= s@);
    }
    v
}

/// Parses a persisted line back into a record.
///
/// The contract is the round trip itself: a parse that succeeds returns a
/// record that encodes back to exactly the input, and every string that is
/// the encoding of some record — in particular everything `encode_record`
/// produces — parses to that record. Serializing a record and parsing the
/// result therefore always yields an equal record, and Success is never
/// confused with Failure.
#[verifier::rlimit(100)]
pub fn parse_record(s: &str) -> (r: Option<MeasurementRecord>)
    ensures
        r matches Some(rec) ==> enc_record(rec@) == s@,
        forall|w: RecordView| #[trigger] enc_record(w) == s@ ==> (r matches Some(rec2) && rec2@
            == w),
{
    let v = to_chars(s);
    if v.len() == 0 {
        proof {
            assert forall|w: RecordView| #[trigger] enc_record(w) != s@ by {
                match w.outcome {
                    OutcomeView::Success(rs) => assert(enc_record(w).len() >= 1),
                    OutcomeView::Failure(e) => assert(enc_record(w).len() >= 1),
                }
            }
        }
        return None;
    }
    let k0 = v[0];
    if k0 == 'F' {
        proof {
            assert forall|w: RecordView| #[trigger] enc_record(w) == s@ implies (w.outcome
                is Failure && v@.skip(1) == enc_str(w.revision_id) + (enc_str(w.triple) + enc_str(
                w.outcome->Failure_0,
            ))) by {
                match w.outcome {
                    OutcomeView::Success(rs) => {
                        assert(enc_record(w)[0] == 'S');
                    },
                    OutcomeView::Failure(e) => {
                        assert(enc_record(w) =~= seq!['F'] + (enc_str(w.revision_id) + (enc_str(
                            w.triple,
                        ) + enc_str(e))));
                        assert(v@.skip(0) =~= v@);
                        lemma_skip_concat(
                            v@,
                            0,
                            seq!['F'],
                            enc_str(w.revision_id) + (enc_str(w.triple) + enc_str(e)),
                        );
                    },
                }
            }
        }
        match parse_field(&v, 1) {
            None => {
                return None;
            },
            Some((id, p1)) => {
                proof {
                    assert forall|w: RecordView| #[trigger] enc_record(w) == s@ implies (w.outcome
                        is Failure && w.revision_id == id@ && v@.skip(p1 as int) == enc_str(
                        w.triple,
                    ) + enc_str(w.outcome->Failure_0)) by {
                        lemma_skip_concat(
                            v@,
                            1,
                            enc_str(w.revision_id),
                            enc_str(w.triple) + enc_str(w.outcome->Failure_0),
                        );
                    }
                }
                match parse_field(&v, p1) {
                    None => {
                        return None;
                    },
                    Some((triple, p2)) => {
                        proof {
                            assert forall|w: RecordView| #[trigger] enc_record(w)
                                == s@ implies (w.outcome is Failure && w.triple == triple@
                                && v@.skip(p2 as int) == enc_str(w.outcome->Failure_0)
                                + Seq::<char>::empty()) by {
                                lemma_skip_concat(
                                    v@,
                                    p1 as int,
                                    enc_str(w.triple),
                                    enc_str(w.outcome->Failure_0),
                                );
                                assert(enc_str(w.outcome->Failure_0) + Seq::<char>::empty()
                                    =~= enc_str(w.outcome->Failure_0));
                            }
                        }
                        match parse_field(&v, p2) {
                            None => {
                                return None;
                            },
                            Some((error, p3)) => {
                                if p3 != v.len() {
                                    proof {
                                        assert forall|w: RecordView| #[trigger] enc_record(w)
                                            != s@ by {
                                            if enc_record(w) == s@ {
                                                assert(p3 == p2 + enc_str(
                                                    w.outcome->Failure_0,
                                                ).len());
                                                assert(v@.skip(p2 as int).len() == v@.len() - p2);
                                            }
                                        }
                                    }
                                    return None;
                                }
                                let rec = MeasurementRecord {
                                    revision_id: id,
                                    triple,
                                    outcome: Outcome::Failure(error),
                                };
                                proof {
                                    assert(v@ =~= v@.subrange(0, 1) + v@.subrange(1, p1 as int)
                                        + v@.subrange(p1 as int, p2 as int) + v@.subrange(
                                        p2 as int,
                                        p3 as int,
                                    ));
                                    assert(v@.subrange(0, 1) =~= seq!['F']);
                                    assert(enc_record(rec@) =~= seq!['F'] + enc_str(
                                        rec@.revision_id,
                                    ) + enc_str(rec@.triple) + enc_str(error@));
                                    assert(enc_record(rec@) == s@);
                                    assert forall|w: RecordView| #[trigger] enc_record(w)
                                        == s@ implies rec@ == w by {
                                        assert(w.outcome->Failure_0 == error@);
                                        assert(rec@ =~= w);
                                    }
                                }
                                Some(rec)
                            },
                        }
                    },
                }
            },
        }
    } else if k0 == 'S' {
        proof {
            assert forall|w: RecordView| #[trigger] enc_record(w) == s@ implies (w.outcome
                is Success && v@.skip(1) == enc_str(w.revision_id) + (enc_str(w.triple) + (enc_len(
                w.outcome->Success_0.len(),
            ) + enc_results(w.outcome->Success_0)))) by {
                match w.outcome {
                    OutcomeView::Failure(e) => {
                        assert(enc_record(w)[0] == 'F');
                    },
                    OutcomeView::Success(rs) => {
                        assert(enc_record(w) =~= seq!['S'] + (enc_str(w.revision_id) + (enc_str(
                            w.triple,
                        ) + (enc_len(rs.len()) + enc_results(rs)))));
                        assert(v@.skip(0) =~= v@);
                        lemma_skip_concat(
                            v@,
                            0,
                            seq!['S'],
                            enc_str(w.revision_id) + (enc_str(w.triple) + (enc_len(rs.len())
                                + enc_results(rs))),
                        );
                    },
                }
            }
        }
        match parse_field(&v, 1) {
            None => {
                return None;
            },
            Some((id, p1)) => {
                proof {
                    assert forall|w: RecordView| #[trigger] enc_record(w) == s@ implies (w.outcome
                        is Success && w.revision_id == id@ && v@.skip(p1 as int) == enc_str(
                        w.triple,
                    ) + (enc_len(w.outcome->Success_0.len()) + enc_results(
                        w.outcome->Success_0,
                    ))) by {
                        lemma_skip_concat(
                            v@,
                            1,
                            enc_str(w.revision_id),
                            enc_str(w.triple) + (enc_len(w.outcome->Success_0.len()) + enc_results(
                                w.outcome->Success_0,
                            )),
                        );
                    }
                }
                match parse_field(&v, p1) {
                    None => {
                        return None;
                    },
                    Some((triple, p2)) => {
                        proof {
                            assert forall|w: RecordView| #[trigger] enc_record(w)
                                == s@ implies (w.outcome is Success && w.triple == triple@
                                && w.outcome->Success_0.len() <= v@.len() && v@.skip(p2 as int)
                                == enc_len(w.outcome->Success_0.len()) + enc_results(
                                w.outcome->Success_0,
                            )) by {
                                lemma_skip_concat(
                                    v@,
                                    p1 as int,
                                    enc_str(w.triple),
                                    enc_len(w.outcome->Success_0.len()) + enc_results(
                                        w.outcome->Success_0,
                                    ),
                                );
                                lemma_enc_results_len(w.outcome->Success_0);
                                assert(v@.skip(p2 as int).len() == v@.len() - p2);
                            }
                        }
                        match parse_len(&v, p2) {
                            None => {
                                return None;
                            },
                            Some((cnt, p3)) => {
                                proof {
                                    assert forall|w: RecordView| #[trigger] enc_record(w)
                                        == s@ implies (w.outcome->Success_0.len() == cnt
                                        && v@.skip(p3 as int) == enc_results(
                                        w.outcome->Success_0,
                                    )) by {
                                        lemma_skip_concat(
                                            v@,
                                            p2 as int,
                                            enc_len(w.outcome->Success_0.len()),
                                            enc_results(w.outcome->Success_0),
                                        );
                                    }
                                }
                                proof {
                                    assert(v@.subrange(0, 1) =~= seq!['S']);
                                    assert(v@.subrange(1, p2 as int) =~= v@.subrange(1, p1 as int)
                                        + v@.subrange(p1 as int, p2 as int));
                                }
                                parse_success_results(v, s, id, triple, p2, p3, cnt)
                            },
                        }
                    },
                }
            },
        }
    } else {
        proof {
            assert forall|w: RecordView| #[trigger] enc_record(w) != s@ by {
                if enc_record(w) == s@ {
                    match w.outcome {
                        OutcomeView::Success(rs) => assert(enc_record(w)[0] == 'S'),
                        OutcomeView::Failure(e) => assert(enc_record(w)[0] == 'F'),
                    }
                }
            }
        }
        None
    }
}

/// Parses the benchmark result pairs of a Success record, once the header
/// — kind, id, triple and count — has been read and checked.
fn parse_success_results(
    v: Vec<char>,
    s: &str,
    id: String,
    triple: String,
    p2: usize,
    p3: usize,
    cnt: usize,
) -> (r: Option<MeasurementRecord>)
    requires
        v@ == s@,
        p2 <= p3 <= v@.len(),
        v@[0] == 'S',
        1 <= p2,
        v@.subrange(0, 1) == seq!['S'],
        v@.subrange(1, p2 as int) == enc_str(id@) + enc_str(triple@),
        v@.subrange(p2 as int, p3 as int) == enc_len(cnt as nat),
        forall|w: RecordView| #[trigger] enc_record(w) == s@ ==> (w.outcome is Success
            && w.revision_id == id@ && w.triple == triple@ && w.outcome->Success_0.len() == cnt
            && v@.skip(p3 as int) == enc_results(w.outcome->Success_0)),
    ensures
        r matches Some(rec) ==> enc_record(rec@) == s@,
        forall|w: RecordView| #[trigger] enc_record(w) == s@ ==> (r matches Some(rec2) && rec2@
            == w),
{
    let mut results: Vec<BenchmarkResult> = Vec::new();
    let mut p: usize = p3;
    let mut k: usize = 0;
    proof {
        assert(v@.subrange(p3 as int, p3 as int) =~= Seq::<char>::empty());
        assert(results@.map_values(|b: BenchmarkResult| b@) =~= Seq::<BenchResultView>::empty());
        assert(enc_results(results@.map_values(|b: BenchmarkResult| b@)) == Seq::<char>::empty());
        assert forall|w: RecordView| #[trigger] enc_record(w) == s@ implies (
        w.outcome->Success_0.take(0) == results@.map_values(|b: BenchmarkResult| b@)
            && v@.skip(p3 as int) == enc_results(w.outcome->Success_0.skip(0))) by {
            let rs = w.outcome->Success_0;
            assert(rs.take(0) =~= Seq::<BenchResultView>::empty());
            assert(rs.skip(0) =~= rs);
        }
    }
    while k < cnt
        invariant
            k <= cnt,
            p3 <= p <= v@.len(),
            v@ == s@,
            results@.len() == k,
            v@.subrange(p3 as int, p as int) == enc_results(
                results@.map_values(|b: BenchmarkResult| b@),
            ),
            forall|w: RecordView| #[trigger] enc_record(w) == s@ ==> (w.outcome is Success
                && w.outcome->Success_0.len() == cnt && w.outcome->Success_0.take(k as int)
                == results@.map_values(|b: BenchmarkResult| b@) && v@.skip(p as int)
                == enc_results(w.outcome->Success_0.skip(k as int))),
        decreases cnt - k,
    {
        proof {
            assert forall|w: RecordView| #[trigger] enc_record(w) == s@ implies (v@.skip(p as int)
                == enc_str(w.outcome->Success_0[k as int].name) + (enc_str(
                w.outcome->Success_0[k as int].metrics,
            ) + enc_results(w.outcome->Success_0.skip(k + 1)))) by {
                let rs = w.outcome->Success_0;
                let q = rs.skip(k as int);
                assert(q.len() == cnt - k >= 1);
                assert(q[0] == rs[k as int]);
                assert(q.drop_first() =~= rs.skip(k + 1));
                assert(enc_results(q) == enc_result(q[0]) + enc_results(q.drop_first()));
                assert(enc_results(q) =~= enc_str(rs[k as int].name) + (enc_str(
                    rs[k as int].metrics,
                ) + enc_results(rs.skip(k + 1))));
            }
        }
        match parse_field(&v, p) {
            None => {
                return None;
            },
            Some((name, pn)) => {
                proof {
                    assert forall|w: RecordView| #[trigger] enc_record(w) == s@ implies (
                    w.outcome->Success_0[k as int].name == name@ && v@.skip(pn as int) == enc_str(
                        w.outcome->Success_0[k as int].metrics,
                    ) + enc_results(w.outcome->Success_0.skip(k + 1))) by {
                        lemma_skip_concat(
                            v@,
                            p as int,
                            enc_str(w.outcome->Success_0[k as int].name),
                            enc_str(w.outcome->Success_0[k as int].metrics) + enc_results(
                                w.outcome->Success_0.skip(k + 1),
                            ),
                        );
                    }
                }
                match parse_field(&v, pn) {
                    None => {
                        return None;
                    },
                    Some((metrics, pm)) => {
                        proof {
                            assert forall|w: RecordView| #[trigger] enc_record(w) == s@ implies (
                            w.outcome->Success_0[k as int].metrics == metrics@ && v@.skip(
                                pm as int,
                            ) == enc_results(w.outcome->Success_0.skip(k + 1))) by {
                                lemma_skip_concat(
                                    v@,
                                    pn as int,
                                    enc_str(w.outcome->Success_0[k as int].metrics),
                                    enc_results(w.outcome->Success_0.skip(k + 1)),
                                );
                            }
                        }
                        let ghost old_results = results@;
                        let b = BenchmarkResult { name, metrics };
                        let ghost bv = b@;
                        results.push(b);
                        proof {
                            let resv = old_results.map_values(|b: BenchmarkResult| b@);
                            assert(results@.map_values(|b: BenchmarkResult| b@) =~= resv.push(bv));
                            lemma_enc_results_snoc(resv, bv);
                            assert(v@.subrange(p3 as int, pm as int) =~= v@.subrange(
                                p3 as int,
                                p as int,
                            ) + v@.subrange(p as int, pn as int) + v@.subrange(
                                pn as int,
                                pm as int,
                            ));
                            assert(enc_result(bv) == enc_str(bv.name) + enc_str(bv.metrics));
                            assert(v@.subrange(p3 as int, pm as int) =~= enc_results(
                                resv.push(bv),
                            ));
                            assert forall|w: RecordView| #[trigger] enc_record(w)
                                == s@ implies w.outcome->Success_0.take(k + 1)
                                == results@.map_values(|b: BenchmarkResult| b@) by {
                                let rs = w.outcome->Success_0;
                                assert(rs[k as int].name == bv.name && rs[k as int].metrics
                                    == bv.metrics);
                                assert(rs[k as int] =~= bv);
                                assert(rs.take(k + 1) =~= rs.take(k as int).push(rs[k as int]));
                                assert(rs.take(k + 1) =~= resv.push(bv));
                            }
                        }
                        p = pm;
                        k = k + 1;
                    },
                }
            },
        }
    }
    if p != v.len() {
        proof {
            assert forall|w: RecordView| #[trigger] enc_record(w) != s@ by {
                if enc_record(w) == s@ {
                    let rs = w.outcome->Success_0;
                    assert(rs.skip(cnt as int) =~= Seq::<BenchResultView>::empty());
                    assert(enc_results(Seq::<BenchResultView>::empty()) == Seq::<char>::empty());
                    assert(v@.skip(p as int).len() == v@.len() - p);
                }
            }
        }
        return None;
    }
    let rec = MeasurementRecord { revision_id: id, triple, outcome: Outcome::Success(results) };
    proof {
        let resv = results@.map_values(|b: BenchmarkResult| b@);
        assert(v@ =~= v@.subrange(0, 1) + v@.subrange(1, p2 as int) + v@.subrange(
            p2 as int,
            p3 as int,
        ) + v@.subrange(p3 as int, p as int));
        assert(enc_record(rec@) =~= seq!['S'] + enc_str(rec@.revision_id) + enc_str(rec@.triple)
            + enc_len(resv.len()) + enc_results(resv));
        assert(enc_record(rec@) == s@);
        assert forall|w: RecordView| #[trigger] enc_record(w) == s@ implies rec@ == w by {
            let rs = w.outcome->Success_0;
            assert(rs.take(cnt as int) =~= rs);
            assert(rec@.outcome =~= w.outcome);
            assert(rec@ =~= w);
        }
    }
    Some(rec)
}

} // verus!
