//! The persisted form of a store: a self-delimiting text in which every
//! length stands as a fixed run of twenty decimal digits, followed by exactly
//! that many characters of content. Fixed-width lengths keep the format
//! trivially self-delimiting: no character of the stored scripts ever needs
//! escaping.
//!
//! Layout, in order: the script count, then for each script its alias, its
//! optional description (`n`, or `s` followed by the text), its command body,
//! its tag list (a count, then each tag), and its optional reference marker.

use vstd::prelude::*;

use crate::error::PierError;
use crate::script::{Script, ScriptView};

verus! {

/// The decimal digit character for `d % 10`.
pub open spec fn digit_char(d: nat) -> char {
    if d == 0 {
        '0'
    } else if d == 1 {
        '1'
    } else if d == 2 {
        '2'
    } else if d == 3 {
        '3'
    } else if d == 4 {
        '4'
    } else if d == 5 {
        '5'
    } else if d == 6 {
        '6'
    } else if d == 7 {
        '7'
    } else if d == 8 {
        '8'
    } else {
        '9'
    }
}

pub open spec fn is_digit(c: char) -> bool {
    c == '0' || c == '1' || c == '2' || c == '3' || c == '4' || c == '5' || c == '6' || c == '7'
        || c == '8' || c == '9'
}

pub open spec fn digit_val(c: char) -> nat {
    if c == '0' {
        0
    } else if c == '1' {
        1
    } else if c == '2' {
        2
    } else if c == '3' {
        3
    } else if c == '4' {
        4
    } else if c == '5' {
        5
    } else if c == '6' {
        6
    } else if c == '7' {
        7
    } else if c == '8' {
        8
    } else {
        9
    }
}

/// `n` written as exactly `w` decimal digits, most significant first,
/// truncated to its `w` low digits.
pub open spec fn pad(n: nat, w: nat) -> Seq<char>
    decreases w,
{
    if w == 0 {
        Seq::empty()
    } else {
        pad(n / 10, (w - 1) as nat).push(digit_char(n % 10))
    }
}

/// The value of a run of digit characters, most significant first.
pub open spec fn val(s: Seq<char>) -> nat
    decreases s.len(),
{
    if s.len() == 0 {
        0
    } else {
        10 * val(s.drop_last()) + digit_val(s.last())
    }
}

pub open spec fn all_digits(s: Seq<char>) -> bool {
    forall|i: int| 0 <= i < s.len() ==> is_digit(#[trigger] s[i])
}

pub open spec fn pow10(w: nat) -> nat
    decreases w,
{
    if w == 0 {
        1
    } else {
        10 * pow10((w - 1) as nat)
    }
}

/// Every length a real text can have is below the capacity of twenty digits.
pub proof fn lemma_pow10_20_large()
    ensures
        (usize::MAX as nat) < pow10(20),
{
    assert(pow10(0) == 1);
    assert(pow10(1) == 10);
    assert(pow10(2) == 100);
    assert(pow10(3) == 1000);
    assert(pow10(4) == 10000);
    assert(pow10(5) == 100000);
    assert(pow10(6) == 1000000);
    assert(pow10(7) == 10000000);
    assert(pow10(8) == 100000000);
    assert(pow10(9) == 1000000000);
    assert(pow10(10) == 10000000000);
    assert(pow10(11) == 100000000000);
    assert(pow10(12) == 1000000000000);
    assert(pow10(13) == 10000000000000);
    assert(pow10(14) == 100000000000000);
    assert(pow10(15) == 1000000000000000);
    assert(pow10(16) == 10000000000000000);
    assert(pow10(17) == 100000000000000000);
    assert(pow10(18) == 1000000000000000000);
    assert(pow10(19) == 10000000000000000000);
    assert(pow10(20) == 100000000000000000000);
    assert(usize::MAX as nat <= u64::MAX as nat);
}

/// A padded run is `w` digit characters.
pub proof fn lemma_pad_shape(n: nat, w: nat)
    ensures
        pad(n, w).len() == w,
        all_digits(pad(n, w)),
    decreases w,
{
    if w > 0 {
        lemma_pad_shape(n / 10, (w - 1) as nat);
        assert(is_digit(digit_char(n % 10)));
    }
}

pub proof fn lemma_pow10_pos(w: nat)
    ensures
        pow10(w) >= 1,
    decreases w,
{
    if w > 0 {
        lemma_pow10_pos((w - 1) as nat);
    }
}

/// Splitting one digit off a value: the low digit and the rest divide out.
proof fn lemma_mod_step(n: nat, p: nat)
    requires
        p > 0,
    ensures
        n % (10 * p) == 10 * ((n / 10) % p) + n % 10,
{
    let a = n / 10;
    let b = n % 10;
    vstd::arithmetic::div_mod::lemma_fundamental_div_mod(n as int, 10);
    let q = a as int / p as int;
    let r = a as int % p as int;
    vstd::arithmetic::div_mod::lemma_fundamental_div_mod(a as int, p as int);
    assert(0 <= r < p as int) by {
        vstd::arithmetic::div_mod::lemma_mod_bound(a as int, p as int);
    }
    assert(n as int == q * (10 * p as int) + (10 * r + b as int)) by (nonlinear_arith)
        requires
            n as int == 10 * (q * p as int + r) + b as int,
    ;
    vstd::arithmetic::div_mod::lemma_fundamental_div_mod_converse(
        n as int,
        10 * p as int,
        q,
        10 * r + b as int,
    );
}

/// Reading back a padded run gives the value modulo the width's capacity.
pub proof fn lemma_val_pad(n: nat, w: nat)
    ensures
        val(pad(n, w)) == n % pow10(w),
    decreases w,
{
    if w == 0 {
        lemma_small_mod_zero(n);
    } else {
        lemma_val_pad(n / 10, (w - 1) as nat);
        let s = pad(n, w);
        assert(s.drop_last() =~= pad(n / 10, (w - 1) as nat));
        assert(s.last() == digit_char(n % 10));
        assert(digit_val(digit_char(n % 10)) == n % 10) by {
            vstd::arithmetic::div_mod::lemma_mod_bound(n as int, 10);
        }
        lemma_pow10_pos((w - 1) as nat);
        lemma_mod_step(n, pow10((w - 1) as nat));
    }
}

proof fn lemma_small_mod_zero(n: nat)
    ensures
        n % pow10(0) == 0,
{
    assert(pow10(0) == 1);
    vstd::arithmetic::div_mod::lemma_mod_self_0(1);
    vstd::arithmetic::div_mod::lemma_fundamental_div_mod_converse(n as int, 1, n as int, 0);
}

/// A value below the width's capacity survives the round trip exactly.
pub proof fn lemma_val_pad_exact(n: nat, w: nat)
    requires
        n < pow10(w),
    ensures
        val(pad(n, w)) == n,
{
    lemma_val_pad(n, w);
    vstd::arithmetic::div_mod::lemma_small_mod(n, pow10(w));
}

/// A run of digits is reproduced exactly by padding its own value.
pub proof fn lemma_pad_val(s: Seq<char>)
    requires
        all_digits(s),
    ensures
        pad(val(s), s.len()) == s,
    decreases s.len(),
{
    if s.len() > 0 {
        let init = s.drop_last();
        let c = s.last();
        assert(is_digit(c));
        let v = val(s);
        assert(v == 10 * val(init) + digit_val(c));
        vstd::arithmetic::div_mod::lemma_fundamental_div_mod_converse(
            v as int,
            10,
            val(init) as int,
            digit_val(c) as int,
        );
        assert(v % 10 == digit_val(c));
        assert(v / 10 == val(init));
        assert(digit_char(digit_val(c)) == c);
        lemma_pad_val(init);
        assert(pad(v, s.len()) =~= s);
    } else {
        assert(pad(val(s), 0) =~= s);
    }
}

/// Padded runs of in-range values are distinct for distinct values.
pub proof fn lemma_pad_injective(n: nat, m: nat, w: nat)
    requires
        n < pow10(w),
        m < pow10(w),
        pad(n, w) == pad(m, w),
    ensures
        n == m,
{
    lemma_val_pad_exact(n, w);
    lemma_val_pad_exact(m, w);
}

/// A digit prefix never exceeds the value of the whole run.
pub proof fn lemma_val_prefix_le(s: Seq<char>, i: int)
    requires
        0 <= i <= s.len(),
    ensures
        val(s.subrange(0, i)) <= val(s),
    decreases s.len() - i,
{
    if i == s.len() {
        assert(s.subrange(0, i) =~= s);
    } else {
        lemma_val_prefix_le(s.subrange(0, s.len() as int - 1), i);
        assert(s.subrange(0, s.len() as int - 1).subrange(0, i) =~= s.subrange(0, i));
        assert(s.subrange(0, s.len() as int - 1) =~= s.drop_last());
        assert(val(s) == 10 * val(s.drop_last()) + digit_val(s.last()));
    }
}

// ---------------------------------------------------------------------------
// The encoded forms.
// ---------------------------------------------------------------------------

/// A text: its length as twenty digits, then its characters.
pub open spec fn enc_text(s: Seq<char>) -> Seq<char> {
    pad(s.len(), 20) + s
}

/// An optional text: `n` alone, or `s` followed by the text.
pub open spec fn enc_opt(o: Option<Seq<char>>) -> Seq<char> {
    match o {
        None => seq!['n'],
        Some(s) => seq!['s'] + enc_text(s),
    }
}

/// A run of texts, in order.
pub open spec fn enc_texts(ts: Seq<Seq<char>>) -> Seq<char>
    decreases ts.len(),
{
    if ts.len() == 0 {
        Seq::empty()
    } else {
        enc_text(ts[0]) + enc_texts(ts.subrange(1, ts.len() as int))
    }
}

/// A tag list: its count as twenty digits, then each tag as a text.
pub open spec fn enc_list(ts: Seq<Seq<char>>) -> Seq<char> {
    pad(ts.len(), 20) + enc_texts(ts)
}

/// One script: alias, optional description, command body, tag list, optional
/// reference marker, in that order.
pub open spec fn enc_script(v: ScriptView) -> Seq<char> {
    enc_text(v.alias) + enc_opt(v.description) + enc_text(v.command) + enc_list(v.tags) + enc_opt(
        v.reference,
    )
}

/// A run of scripts, in order.
pub open spec fn enc_scripts(ss: Seq<ScriptView>) -> Seq<char>
    decreases ss.len(),
{
    if ss.len() == 0 {
        Seq::empty()
    } else {
        enc_script(ss[0]) + enc_scripts(ss.subrange(1, ss.len() as int))
    }
}

/// A whole store: its script count as twenty digits, then each script.
pub open spec fn enc_store(ss: Seq<ScriptView>) -> Seq<char> {
    pad(ss.len(), 20) + enc_scripts(ss)
}

/// Whether a text is short enough for its length to be written back by the
/// running machine.
pub open spec fn fits(s: Seq<char>) -> bool {
    s.len() <= usize::MAX
}

pub open spec fn opt_fits(o: Option<Seq<char>>) -> bool {
    match o {
        None => true,
        Some(s) => fits(s),
    }
}

pub open spec fn texts_fit(ts: Seq<Seq<char>>) -> bool {
    ts.len() <= usize::MAX && forall|i: int| 0 <= i < ts.len() ==> fits(#[trigger] ts[i])
}

/// Whether every length in one script's encoding is machine-representable.
pub open spec fn script_fits(v: ScriptView) -> bool {
    fits(v.alias) && opt_fits(v.description) && fits(v.command) && texts_fit(v.tags) && opt_fits(
        v.reference,
    )
}

/// Whether every length in a store's encoding is machine-representable; true
/// of every store a running process can hold.
pub open spec fn store_fits(ss: Seq<ScriptView>) -> bool {
    ss.len() <= usize::MAX && forall|i: int| 0 <= i < ss.len() ==> script_fits(#[trigger] ss[i])
}

/// Every element of `ts` is machine-representable, with no bound on the count.
pub open spec fn each_fits(ts: Seq<Seq<char>>) -> bool {
    forall|i: int| 0 <= i < ts.len() ==> fits(#[trigger] ts[i])
}

/// Every script of `ss` has machine-representable lengths.
pub open spec fn each_script_fits(ss: Seq<ScriptView>) -> bool {
    forall|i: int| 0 <= i < ss.len() ==> script_fits(#[trigger] ss[i])
}

/// The text at offset `i` of `s` begins with `p`.
pub open spec fn starts_at(s: Seq<char>, i: int, p: Seq<char>) -> bool {
    0 <= i && i + p.len() <= s.len() && s.subrange(i, i + p.len()) == p
}

// ---------------------------------------------------------------------------
// Injectivity: equal encodings come only from equal values. These lemmas are
// the heart of the round-trip guarantee and of the decoder's completeness.
// ---------------------------------------------------------------------------

pub proof fn lemma_starts_split(s: Seq<char>, i: int, x: Seq<char>, y: Seq<char>)
    requires
        starts_at(s, i, x + y),
    ensures
        starts_at(s, i, x),
        starts_at(s, i + x.len(), y),
{
    let xy = x + y;
    assert forall|p: int| 0 <= p < x.len() implies s.subrange(i, i + x.len())[p] == x[p] by {
        assert(s.subrange(i, i + xy.len())[p] == xy[p]);
    }
    assert(s.subrange(i, i + x.len()) =~= x);
    assert forall|p: int| 0 <= p < y.len() implies s.subrange(
        i + x.len(),
        i + x.len() + y.len(),
    )[p] == y[p] by {
        assert(s.subrange(i, i + xy.len())[x.len() + p] == xy[x.len() + p]);
    }
    assert(s.subrange(i + x.len(), i + x.len() + y.len()) =~= y);
}

/// Two fixed-width counts at the head of equal texts agree, and so do the
/// remainders.
proof fn lemma_pad20_head(x: nat, y: nat, rx: Seq<char>, ry: Seq<char>)
    requires
        x <= usize::MAX,
        y <= usize::MAX,
        pad(x, 20) + rx == pad(y, 20) + ry,
    ensures
        x == y,
        rx == ry,
{
    lemma_pad_shape(x, 20);
    lemma_pad_shape(y, 20);
    lemma_pow10_20_large();
    let u = pad(x, 20) + rx;
    assert(u.subrange(0, 20) =~= pad(x, 20));
    assert(u.subrange(0, 20) =~= pad(y, 20));
    lemma_pad_injective(x, y, 20);
    assert(rx =~= u.subrange(20, u.len() as int));
    assert(ry =~= u.subrange(20, u.len() as int));
}

pub proof fn lemma_enc_text_inj(a: Seq<char>, b: Seq<char>, ra: Seq<char>, rb: Seq<char>)
    requires
        fits(a),
        fits(b),
        enc_text(a) + ra == enc_text(b) + rb,
    ensures
        a == b,
        ra == rb,
{
    lemma_pad_shape(a.len(), 20);
    lemma_pad_shape(b.len(), 20);
    assert((pad(a.len(), 20) + a) + ra =~= pad(a.len(), 20) + (a + ra));
    assert((pad(b.len(), 20) + b) + rb =~= pad(b.len(), 20) + (b + rb));
    lemma_pad20_head(a.len(), b.len(), a + ra, b + rb);
    let u = a + ra;
    assert(a =~= u.subrange(0, a.len() as int));
    assert(b =~= u.subrange(0, b.len() as int));
    assert(ra =~= u.subrange(a.len() as int, u.len() as int));
    assert(rb =~= u.subrange(b.len() as int, u.len() as int));
}

pub proof fn lemma_enc_opt_inj(
    oa: Option<Seq<char>>,
    ob: Option<Seq<char>>,
    ra: Seq<char>,
    rb: Seq<char>,
)
    requires
        opt_fits(oa),
        opt_fits(ob),
        enc_opt(oa) + ra == enc_opt(ob) + rb,
    ensures
        oa == ob,
        ra == rb,
{
    let u = enc_opt(oa) + ra;
    match (oa, ob) {
        (None, None) => {
            assert(ra =~= u.subrange(1, u.len() as int));
            assert(rb =~= u.subrange(1, u.len() as int));
        },
        (Some(a), Some(b)) => {
            assert((seq!['s'] + enc_text(a)) + ra =~= seq!['s'] + (enc_text(a) + ra));
            assert((seq!['s'] + enc_text(b)) + rb =~= seq!['s'] + (enc_text(b) + rb));
            assert(enc_text(a) + ra =~= u.subrange(1, u.len() as int));
            assert(enc_text(b) + rb =~= u.subrange(1, u.len() as int));
            lemma_enc_text_inj(a, b, ra, rb);
        },
        (None, Some(b)) => {
            lemma_pad_shape(b.len(), 20);
            assert(u[0] == 'n');
            assert(u[0] == 's');
        },
        (Some(a), None) => {
            lemma_pad_shape(a.len(), 20);
            assert(u[0] == 's');
            assert(u[0] == 'n');
        },
    }
}

pub proof fn lemma_enc_texts_inj(
    ta: Seq<Seq<char>>,
    tb: Seq<Seq<char>>,
    ra: Seq<char>,
    rb: Seq<char>,
)
    requires
        each_fits(ta),
        each_fits(tb),
        ta.len() == tb.len(),
        enc_texts(ta) + ra == enc_texts(tb) + rb,
    ensures
        ta == tb,
        ra == rb,
    decreases ta.len(),
{
    if ta.len() == 0 {
        let u = enc_texts(ta) + ra;
        assert(ra =~= u.subrange(0, u.len() as int));
        assert(rb =~= u.subrange(0, u.len() as int));
        assert(ta =~= tb);
    } else {
        let tla = ta.subrange(1, ta.len() as int);
        let tlb = tb.subrange(1, tb.len() as int);
        assert((enc_text(ta[0]) + enc_texts(tla)) + ra =~= enc_text(ta[0]) + (enc_texts(tla)
            + ra));
        assert((enc_text(tb[0]) + enc_texts(tlb)) + rb =~= enc_text(tb[0]) + (enc_texts(tlb)
            + rb));
        assert(fits(ta[0]));
        assert(fits(tb[0]));
        lemma_enc_text_inj(ta[0], tb[0], enc_texts(tla) + ra, enc_texts(tlb) + rb);
        assert(each_fits(tla)) by {
            assert(forall|q: int| 0 <= q < tla.len() ==> tla[q] == ta[q + 1]);
        }
        assert(each_fits(tlb)) by {
            assert(forall|q: int| 0 <= q < tlb.len() ==> tlb[q] == tb[q + 1]);
        }
        lemma_enc_texts_inj(tla, tlb, ra, rb);
        assert forall|q: int| 0 <= q < ta.len() implies ta[q] == tb[q] by {
            if q >= 1 {
                assert(tla[q - 1] == ta[q]);
                assert(tlb[q - 1] == tb[q]);
                assert(tla[q - 1] == tlb[q - 1]);
            }
        }
        assert(ta =~= tb);
    }
}

pub proof fn lemma_enc_list_inj(
    ta: Seq<Seq<char>>,
    tb: Seq<Seq<char>>,
    ra: Seq<char>,
    rb: Seq<char>,
)
    requires
        texts_fit(ta),
        texts_fit(tb),
        enc_list(ta) + ra == enc_list(tb) + rb,
    ensures
        ta == tb,
        ra == rb,
{
    assert((pad(ta.len(), 20) + enc_texts(ta)) + ra =~= pad(ta.len(), 20) + (enc_texts(ta) + ra));
    assert((pad(tb.len(), 20) + enc_texts(tb)) + rb =~= pad(tb.len(), 20) + (enc_texts(tb) + rb));
    lemma_pad20_head(ta.len(), tb.len(), enc_texts(ta) + ra, enc_texts(tb) + rb);
    lemma_enc_texts_inj(ta, tb, ra, rb);
}

pub proof fn lemma_enc_script_inj(va: ScriptView, vb: ScriptView, ra: Seq<char>, rb: Seq<char>)
    requires
        script_fits(va),
        script_fits(vb),
        enc_script(va) + ra == enc_script(vb) + rb,
    ensures
        va == vb,
        ra == rb,
{
    let a2 = enc_opt(va.description) + (enc_text(va.command) + (enc_list(va.tags) + (enc_opt(
        va.reference,
    ) + ra)));
    let b2 = enc_opt(vb.description) + (enc_text(vb.command) + (enc_list(vb.tags) + (enc_opt(
        vb.reference,
    ) + rb)));
    assert(enc_script(va) + ra =~= enc_text(va.alias) + a2);
    assert(enc_script(vb) + rb =~= enc_text(vb.alias) + b2);
    lemma_enc_text_inj(va.alias, vb.alias, a2, b2);
    lemma_enc_opt_inj(
        va.description,
        vb.description,
        enc_text(va.command) + (enc_list(va.tags) + (enc_opt(va.reference) + ra)),
        enc_text(vb.command) + (enc_list(vb.tags) + (enc_opt(vb.reference) + rb)),
    );
    lemma_enc_text_inj(
        va.command,
        vb.command,
        enc_list(va.tags) + (enc_opt(va.reference) + ra),
        enc_list(vb.tags) + (enc_opt(vb.reference) + rb),
    );
    lemma_enc_list_inj(va.tags, vb.tags, enc_opt(va.reference) + ra, enc_opt(vb.reference) + rb);
    lemma_enc_opt_inj(va.reference, vb.reference, ra, rb);
}

pub proof fn lemma_enc_scripts_inj(
    sa: Seq<ScriptView>,
    sb: Seq<ScriptView>,
    ra: Seq<char>,
    rb: Seq<char>,
)
    requires
        each_script_fits(sa),
        each_script_fits(sb),
        sa.len() == sb.len(),
        enc_scripts(sa) + ra == enc_scripts(sb) + rb,
    ensures
        sa == sb,
        ra == rb,
    decreases sa.len(),
{
    if sa.len() == 0 {
        let u = enc_scripts(sa) + ra;
        assert(ra =~= u.subrange(0, u.len() as int));
        assert(rb =~= u.subrange(0, u.len() as int));
        assert(sa =~= sb);
    } else {
        let tla = sa.subrange(1, sa.len() as int);
        let tlb = sb.subrange(1, sb.len() as int);
        assert((enc_script(sa[0]) + enc_scripts(tla)) + ra =~= enc_script(sa[0]) + (enc_scripts(
            tla,
        ) + ra));
        assert((enc_script(sb[0]) + enc_scripts(tlb)) + rb =~= enc_script(sb[0]) + (enc_scripts(
            tlb,
        ) + rb));
        assert(script_fits(sa[0]));
        assert(script_fits(sb[0]));
        lemma_enc_script_inj(sa[0], sb[0], enc_scripts(tla) + ra, enc_scripts(tlb) + rb);
        assert(each_script_fits(tla)) by {
            assert(forall|q: int| 0 <= q < tla.len() ==> tla[q] == sa[q + 1]);
        }
        assert(each_script_fits(tlb)) by {
            assert(forall|q: int| 0 <= q < tlb.len() ==> tlb[q] == sb[q + 1]);
        }
        lemma_enc_scripts_inj(tla, tlb, ra, rb);
        assert forall|q: int| 0 <= q < sa.len() implies sa[q] == sb[q] by {
            if q >= 1 {
                assert(tla[q - 1] == sa[q]);
                assert(tlb[q - 1] == sb[q]);
                assert(tla[q - 1] == tlb[q - 1]);
            }
        }
        assert(sa =~= sb);
    }
}

/// Round trip, stated over the encoded form: two stores with the same
/// persisted text are the same store — same aliases, same commands, same
/// tags, same order. Together with the exact contracts of `encode_scripts`
/// and `decode_scripts`, a load of exactly what a save wrote reconstructs the
/// saved store, and a save of what a load read writes back the loaded text
/// unchanged.
pub proof fn lemma_enc_store_injective(sa: Seq<ScriptView>, sb: Seq<ScriptView>)
    requires
        store_fits(sa),
        store_fits(sb),
        enc_store(sa) == enc_store(sb),
    ensures
        sa == sb,
{
    let e = Seq::<char>::empty();
    assert(enc_store(sa) + e =~= pad(sa.len(), 20) + (enc_scripts(sa) + e));
    assert(enc_store(sb) + e =~= pad(sb.len(), 20) + (enc_scripts(sb) + e));
    assert(enc_store(sa) + e =~= enc_store(sb) + e);
    lemma_pad20_head(sa.len(), sb.len(), enc_scripts(sa) + e, enc_scripts(sb) + e);
    lemma_enc_scripts_inj(sa, sb, e, e);
}

// ---------------------------------------------------------------------------
// Matching a parsed piece against a candidate encoding at the same offset.
// ---------------------------------------------------------------------------

proof fn lemma_match_pad(s: Seq<char>, i: int, j: int, n: nat, m: nat)
    requires
        0 <= i <= j <= s.len(),
        s.subrange(i, j) == pad(n, 20),
        n <= usize::MAX,
        m <= usize::MAX,
        starts_at(s, i, pad(m, 20)),
    ensures
        m == n,
        j == i + 20,
{
    lemma_pad_shape(n, 20);
    lemma_pad_shape(m, 20);
    let latest = s.len() as int;
    let u = s.subrange(i, latest);
    assert(u =~= pad(n, 20) + s.subrange(j, latest));
    assert(u =~= pad(m, 20) + s.subrange(i + 20, latest));
    lemma_pad20_head(n, m, s.subrange(j, latest), s.subrange(i + 20, latest));
}

proof fn lemma_match_text(s: Seq<char>, i: int, j: int, v: Seq<char>, t: Seq<char>)
    requires
        0 <= i <= j <= s.len(),
        s.subrange(i, j) == enc_text(v),
        fits(v),
        fits(t),
        starts_at(s, i, enc_text(t)),
    ensures
        t == v,
        j == i + enc_text(t).len(),
{
    lemma_pad_shape(v.len(), 20);
    lemma_pad_shape(t.len(), 20);
    let latest = s.len() as int;
    let u = s.subrange(i, latest);
    assert(u =~= enc_text(v) + s.subrange(j, latest));
    assert(u =~= enc_text(t) + s.subrange(i + enc_text(t).len(), latest));
    lemma_enc_text_inj(v, t, s.subrange(j, latest), s.subrange(i + enc_text(t).len(), latest));
}

proof fn lemma_match_opt(s: Seq<char>, i: int, j: int, o: Option<Seq<char>>, o2: Option<
    Seq<char>,
>)
    requires
        0 <= i <= j <= s.len(),
        s.subrange(i, j) == enc_opt(o),
        opt_fits(o),
        opt_fits(o2),
        starts_at(s, i, enc_opt(o2)),
    ensures
        o2 == o,
        j == i + enc_opt(o2).len(),
{
    let latest = s.len() as int;
    let u = s.subrange(i, latest);
    assert(u =~= enc_opt(o) + s.subrange(j, latest));
    assert(u =~= enc_opt(o2) + s.subrange(i + enc_opt(o2).len(), latest));
    lemma_enc_opt_inj(o, o2, s.subrange(j, latest), s.subrange(i + enc_opt(o2).len(), latest));
}

proof fn lemma_match_list(s: Seq<char>, i: int, j: int, ts: Seq<Seq<char>>, ts2: Seq<Seq<char>>)
    requires
        0 <= i <= j <= s.len(),
        s.subrange(i, j) == enc_list(ts),
        texts_fit(ts),
        texts_fit(ts2),
        starts_at(s, i, enc_list(ts2)),
    ensures
        ts2 == ts,
        j == i + enc_list(ts2).len(),
{
    let latest = s.len() as int;
    let u = s.subrange(i, latest);
    assert(u =~= enc_list(ts) + s.subrange(j, latest));
    assert(u =~= enc_list(ts2) + s.subrange(i + enc_list(ts2).len(), latest));
    lemma_enc_list_inj(ts, ts2, s.subrange(j, latest), s.subrange(i + enc_list(ts2).len(), latest));
}

proof fn lemma_match_script(s: Seq<char>, i: int, j: int, v: ScriptView, v2: ScriptView)
    requires
        0 <= i <= j <= s.len(),
        s.subrange(i, j) == enc_script(v),
        script_fits(v),
        script_fits(v2),
        starts_at(s, i, enc_script(v2)),
    ensures
        v2 == v,
        j == i + enc_script(v2).len(),
{
    let latest = s.len() as int;
    let u = s.subrange(i, latest);
    assert(u =~= enc_script(v) + s.subrange(j, latest));
    assert(u =~= enc_script(v2) + s.subrange(i + enc_script(v2).len(), latest));
    lemma_enc_script_inj(
        v,
        v2,
        s.subrange(j, latest),
        s.subrange(i + enc_script(v2).len(), latest),
    );
}

// ---------------------------------------------------------------------------
// The decoder. Each parser is sound (whatever it accepts is exactly the
// encoding of what it returns) and complete (whenever some value's encoding
// stands at the offset, it accepts).
// ---------------------------------------------------------------------------

/// The digit value of `c`, if `c` is a decimal digit.
fn digit_of(c: char) -> (r: Option<usize>)
    ensures
        match r {
            Some(d) => is_digit(c) && d as nat == digit_val(c) && d < 10,
            None => !is_digit(c),
        },
{
    match c {
        '0' => Some(0),
        '1' => Some(1),
        '2' => Some(2),
        '3' => Some(3),
        '4' => Some(4),
        '5' => Some(5),
        '6' => Some(6),
        '7' => Some(7),
        '8' => Some(8),
        '9' => Some(9),
        _ => None,
    }
}

/// Reads a twenty-digit length at offset `i`.
fn parse_len(s: &str, i: usize) -> (r: Result<(usize, usize), PierError>)
    ensures
        match r {
            Ok((n, j)) => j == i + 20 && starts_at(s@, i as int, pad(n as nat, 20)),
            Err(e) => e == PierError::LoadError && forall|m: nat|
                m <= usize::MAX ==> !starts_at(s@, i as int, #[trigger] pad(m, 20)),
        },
{
    let total = s.unicode_len();
    if total < 20 || i > total - 20 {
        proof {
            assert forall|m: nat| m <= usize::MAX implies !starts_at(
                s@,
                i as int,
                #[trigger] pad(m, 20),
            ) by {
                lemma_pad_shape(m, 20);
            }
        }
        return Err(PierError::LoadError);
    }
    let mut acc: usize = 0;
    let mut k: usize = 0;
    while k < 20
        invariant
            k <= 20,
            i + 20 <= s@.len(),
            total == s@.len(),
            all_digits(s@.subrange(i as int, i as int + k as int)),
            acc as nat == val(s@.subrange(i as int, i as int + k as int)),
        decreases 20 - k,
    {
        let c = s.get_char(i + k);
        let ghost pre = s@.subrange(i as int, i as int + k as int);
        let ghost ext = s@.subrange(i as int, i as int + k as int + 1);
        proof {
            assert(ext.drop_last() =~= pre);
            assert(ext.last() == c);
        }
        match digit_of(c) {
            Some(d) => {
                if acc > (usize::MAX - d) / 10 {
                    proof {
                        let b = (usize::MAX - d) as int;
                        vstd::arithmetic::div_mod::lemma_fundamental_div_mod(b, 10);
                        vstd::arithmetic::div_mod::lemma_mod_bound(b, 10);
                        assert(10 * acc as int + d as int > usize::MAX as int);
                        assert(val(ext) > usize::MAX as nat);
                        assert forall|m: nat| m <= usize::MAX implies !starts_at(
                            s@,
                            i as int,
                            #[trigger] pad(m, 20),
                        ) by {
                            if starts_at(s@, i as int, pad(m, 20)) {
                                lemma_pad_shape(m, 20);
                                lemma_pow10_20_large();
                                lemma_val_pad(m, 20);
                                vstd::arithmetic::div_mod::lemma_small_mod(m, pow10(20));
                                let p = pad(m, 20);
                                assert(p == s@.subrange(i as int, i as int + 20));
                                assert(p.subrange(0, k as int + 1) =~= ext);
                                lemma_val_prefix_le(p, k as int + 1);
                                assert(val(ext) <= m);
                            }
                        }
                    }
                    return Err(PierError::LoadError);
                }
                proof {
                    assert(val(ext) == 10 * acc as nat + d as nat);
                }
                acc = acc * 10 + d;
            },
            None => {
                proof {
                    assert forall|m: nat| m <= usize::MAX implies !starts_at(
                        s@,
                        i as int,
                        #[trigger] pad(m, 20),
                    ) by {
                        if starts_at(s@, i as int, pad(m, 20)) {
                            lemma_pad_shape(m, 20);
                            let p = pad(m, 20);
                            assert(p == s@.subrange(i as int, i as int + 20));
                            assert(p[k as int] == s@[i as int + k as int]);
                            assert(is_digit(c));
                        }
                    }
                }
                return Err(PierError::LoadError);
            },
        }
        k = k + 1;
    }
    proof {
        let digits = s@.subrange(i as int, i as int + 20);
        lemma_pad_val(digits);
        assert(starts_at(s@, i as int, pad(acc as nat, 20)));
    }
    Ok((acc, i + 20))
}

/// Reads one length-prefixed text at offset `i`.
fn parse_text(s: &str, i: usize) -> (r: Result<(String, usize), PierError>)
    ensures
        match r {
            Ok((v, j)) => i <= j <= s@.len() && s@.subrange(i as int, j as int) == enc_text(v@)
                && fits(v@) && j == i + 20 + v@.len(),
            Err(e) => e == PierError::LoadError && forall|t: Seq<char>|
                fits(t) ==> !starts_at(s@, i as int, #[trigger] enc_text(t)),
        },
{
    let total = s.unicode_len();
    match parse_len(s, i) {
        Ok((n, j)) => {
            proof {
                lemma_pad_shape(n as nat, 20);
            }
            if n > total - j {
                proof {
                    assert forall|t: Seq<char>| fits(t) implies !starts_at(
                        s@,
                        i as int,
                        #[trigger] enc_text(t),
                    ) by {
                        if starts_at(s@, i as int, enc_text(t)) {
                            lemma_starts_split(s@, i as int, pad(t.len(), 20), t);
                            lemma_match_pad(s@, i as int, j as int, n as nat, t.len());
                        }
                    }
                }
                return Err(PierError::LoadError);
            }
            let content = s.substring_char(j, j + n);
            let v = String::from_str(content);
            proof {
                assert(v@.len() == n as nat);
                assert(s@.subrange(i as int, (j + n) as int) =~= pad(n as nat, 20) + v@) by {
                    lemma_pad_shape(n as nat, 20);
                    assert(s@.subrange(i as int, j as int) == pad(n as nat, 20));
                    assert(forall|p: int| 0 <= p < 20 ==> s@.subrange(i as int, j as int)[p]
                        == s@[i as int + p]);
                    assert(forall|p: int| 0 <= p < n as int ==> v@[p] == s@[j as int + p]);
                }
            }
            Ok((v, j + n))
        },
        Err(e) => {
            proof {
                assert forall|t: Seq<char>| fits(t) implies !starts_at(
                    s@,
                    i as int,
                    #[trigger] enc_text(t),
                ) by {
                    if starts_at(s@, i as int, enc_text(t)) {
                        lemma_starts_split(s@, i as int, pad(t.len(), 20), t);
                    }
                }
            }
            Err(e)
        },
    }
}

/// Reads one optional text at offset `i`.
fn parse_opt(s: &str, i: usize) -> (r: Result<(Option<String>, usize), PierError>)
    ensures
        match r {
            Ok((o, j)) => i <= j <= s@.len() && s@.subrange(i as int, j as int) == enc_opt(
                o.deep_view(),
            ) && opt_fits(o.deep_view()),
            Err(e) => e == PierError::LoadError && forall|o: Option<Seq<char>>|
                opt_fits(o) ==> !starts_at(s@, i as int, #[trigger] enc_opt(o)),
        },
{
    proof {
        reveal_strlit("n");
        reveal_strlit("s");
    }
    let total = s.unicode_len();
    if i >= total {
        proof {
            assert forall|o: Option<Seq<char>>| opt_fits(o) implies !starts_at(
                s@,
                i as int,
                #[trigger] enc_opt(o),
            ) by {
                assert(enc_opt(o).len() >= 1);
            }
        }
        return Err(PierError::LoadError);
    }
    let c = s.get_char(i);
    if c == 'n' {
        proof {
            assert(s@.subrange(i as int, i as int + 1) =~= enc_opt(None));
        }
        Ok((None, i + 1))
    } else if c == 's' {
        match parse_text(s, i + 1) {
            Ok((v, j)) => {
                proof {
                    assert(s@.subrange(i as int, j as int) =~= seq!['s'] + enc_text(v@));
                }
                Ok((Some(v), j))
            },
            Err(e) => {
                proof {
                    assert forall|o: Option<Seq<char>>| opt_fits(o) implies !starts_at(
                        s@,
                        i as int,
                        #[trigger] enc_opt(o),
                    ) by {
                        if starts_at(s@, i as int, enc_opt(o)) {
                            match o {
                                None => {
                                    assert(s@.subrange(i as int, i as int + 1)[0] == 'n');
                                    assert(s@[i as int] == 'n');
                                },
                                Some(t) => {
                                    lemma_starts_split(s@, i as int, seq!['s'], enc_text(t));
                                },
                            }
                        }
                    }
                }
                Err(e)
            },
        }
    } else {
        proof {
            assert forall|o: Option<Seq<char>>| opt_fits(o) implies !starts_at(
                s@,
                i as int,
                #[trigger] enc_opt(o),
            ) by {
                if starts_at(s@, i as int, enc_opt(o)) {
                    match o {
                        None => {
                            assert(s@.subrange(i as int, i as int + 1)[0] == 'n');
                            assert(s@[i as int] == 'n');
                        },
                        Some(t) => {
                            lemma_pad_shape(t.len(), 20);
                            assert(s@.subrange(i as int, i as int + enc_opt(o).len())[0]
                                == enc_opt(o)[0]);
                            assert(s@[i as int] == enc_opt(o)[0]);
                            assert(enc_opt(o)[0] == 's');
                        },
                    }
                }
            }
        }
        Err(PierError::LoadError)
    }
}

/// Reads exactly `n` length-prefixed texts at offset `i`.
fn parse_texts(s: &str, i: usize, n: usize) -> (r: Result<(Vec<String>, usize), PierError>)
    ensures
        match r {
            Ok((ts, j)) => ts@.len() == n && i <= j <= s@.len() && s@.subrange(i as int, j as int)
                == enc_texts(ts.deep_view()) && each_fits(ts.deep_view()),
            Err(e) => e == PierError::LoadError && forall|ts: Seq<Seq<char>>|
                ts.len() == n && each_fits(ts) ==> !starts_at(
                    s@,
                    i as int,
                    #[trigger] enc_texts(ts),
                ),
        },
    decreases n,
{
    if n == 0 {
        if i > s.unicode_len() {
            return Err(PierError::LoadError);
        }
        let ts: Vec<String> = Vec::new();
        proof {
            assert(s@.subrange(i as int, i as int) =~= enc_texts(ts.deep_view()));
        }
        return Ok((ts, i));
    }
    match parse_text(s, i) {
        Ok((v, j)) => {
            match parse_texts(s, j, n - 1) {
                Ok((mut rest, j2)) => {
                    let ghost tail = rest.deep_view();
                    rest.insert(0, v);
                    proof {
                        let whole = rest.deep_view();
                        assert(whole.len() == n as nat);
                        assert(whole[0] == v@);
                        assert(whole.subrange(1, whole.len() as int) =~= tail);
                        assert(s@.subrange(i as int, j2 as int) =~= enc_text(v@) + enc_texts(
                            tail,
                        ));
                        assert(enc_texts(whole) == enc_text(v@) + enc_texts(tail));
                        assert forall|q: int| 0 <= q < whole.len() implies fits(
                            #[trigger] whole[q],
                        ) by {
                            if q >= 1 {
                                assert(whole[q] == tail[q - 1]);
                                assert(fits(tail[q - 1]));
                            }
                        }
                    }
                    Ok((rest, j2))
                },
                Err(e) => {
                    proof {
                        assert forall|ts: Seq<Seq<char>>|
                            ts.len() == n && each_fits(ts) implies !starts_at(
                            s@,
                            i as int,
                            #[trigger] enc_texts(ts),
                        ) by {
                            if starts_at(s@, i as int, enc_texts(ts)) {
                                let tail2 = ts.subrange(1, ts.len() as int);
                                assert(enc_texts(ts) == enc_text(ts[0]) + enc_texts(tail2));
                                lemma_starts_split(s@, i as int, enc_text(ts[0]), enc_texts(tail2));
                                assert(fits(ts[0]));
                                lemma_match_text(s@, i as int, j as int, v@, ts[0]);
                                assert(each_fits(tail2)) by {
                                    assert(forall|q: int| 0 <= q < tail2.len() ==> tail2[q] == ts[
                                        q + 1
                                    ]);
                                }
                                assert(starts_at(s@, j as int, enc_texts(tail2)));
                            }
                        }
                    }
                    Err(e)
                },
            }
        },
        Err(e) => {
            proof {
                assert forall|ts: Seq<Seq<char>>|
                    ts.len() == n && each_fits(ts) implies !starts_at(
                    s@,
                    i as int,
                    #[trigger] enc_texts(ts),
                ) by {
                    if starts_at(s@, i as int, enc_texts(ts)) {
                        let tail2 = ts.subrange(1, ts.len() as int);
                        assert(enc_texts(ts) == enc_text(ts[0]) + enc_texts(tail2));
                        lemma_starts_split(s@, i as int, enc_text(ts[0]), enc_texts(tail2));
                        assert(fits(ts[0]));
                    }
                }
            }
            Err(e)
        },
    }
}

/// Reads one count-prefixed tag list at offset `i`.
fn parse_list(s: &str, i: usize) -> (r: Result<(Vec<String>, usize), PierError>)
    ensures
        match r {
            Ok((ts, j)) => i <= j <= s@.len() && s@.subrange(i as int, j as int) == enc_list(
                ts.deep_view(),
            ) && texts_fit(ts.deep_view()),
            Err(e) => e == PierError::LoadError && forall|ts: Seq<Seq<char>>|
                texts_fit(ts) ==> !starts_at(s@, i as int, #[trigger] enc_list(ts)),
        },
{
    match parse_len(s, i) {
        Ok((n, j)) => {
            proof {
                lemma_pad_shape(n as nat, 20);
                assert(s@.subrange(i as int, j as int) == pad(n as nat, 20));
            }
            match parse_texts(s, j, n) {
                Ok((ts, j2)) => {
                    proof {
                        assert(ts.deep_view().len() == n as nat);
                        assert(s@.subrange(i as int, j2 as int) =~= pad(n as nat, 20) + enc_texts(
                            ts.deep_view(),
                        ));
                    }
                    Ok((ts, j2))
                },
                Err(e) => {
                    proof {
                        assert forall|ts: Seq<Seq<char>>| texts_fit(ts) implies !starts_at(
                            s@,
                            i as int,
                            #[trigger] enc_list(ts),
                        ) by {
                            if starts_at(s@, i as int, enc_list(ts)) {
                                lemma_starts_split(s@, i as int, pad(ts.len(), 20), enc_texts(ts));
                                lemma_match_pad(s@, i as int, j as int, n as nat, ts.len());
                            }
                        }
                    }
                    Err(e)
                },
            }
        },
        Err(e) => {
            proof {
                assert forall|ts: Seq<Seq<char>>| texts_fit(ts) implies !starts_at(
                    s@,
                    i as int,
                    #[trigger] enc_list(ts),
                ) by {
                    if starts_at(s@, i as int, enc_list(ts)) {
                        lemma_starts_split(s@, i as int, pad(ts.len(), 20), enc_texts(ts));
                    }
                }
            }
            Err(e)
        },
    }
}

/// Reads one script at offset `i`.
#[verifier::rlimit(100)]
fn parse_script(s: &str, i: usize) -> (r: Result<(Script, usize), PierError>)
    ensures
        match r {
            Ok((sc, j)) => i <= j <= s@.len() && s@.subrange(i as int, j as int) == enc_script(sc@)
                && script_fits(sc@),
            Err(e) => e == PierError::LoadError && forall|v: ScriptView|
                script_fits(v) ==> !starts_at(s@, i as int, #[trigger] enc_script(v)),
        },
{
    let ghost start = i as int;
    let (alias, i1) = match parse_text(s, i) {
        Ok(p) => p,
        Err(e) => {
            proof {
                assert forall|v: ScriptView| script_fits(v) implies !starts_at(
                    s@,
                    start,
                    #[trigger] enc_script(v),
                ) by {
                    if starts_at(s@, start, enc_script(v)) {
                        assert(enc_script(v) == enc_text(v.alias) + (enc_opt(v.description)
                            + (enc_text(v.command) + (enc_list(v.tags) + enc_opt(v.reference)))))
                            by {
                            assert(enc_script(v) =~= enc_text(v.alias) + (enc_opt(v.description)
                                + (enc_text(v.command) + (enc_list(v.tags) + enc_opt(
                                v.reference,
                            )))));
                        }
                        lemma_starts_split(
                            s@,
                            start,
                            enc_text(v.alias),
                            enc_opt(v.description) + (enc_text(v.command) + (enc_list(v.tags)
                                + enc_opt(v.reference))),
                        );
                    }
                }
            }
            return Err(e);
        },
    };
    let (description, i2) = match parse_opt(s, i1) {
        Ok(p) => p,
        Err(e) => {
            proof {
                assert forall|v: ScriptView| script_fits(v) implies !starts_at(
                    s@,
                    start,
                    #[trigger] enc_script(v),
                ) by {
                    if starts_at(s@, start, enc_script(v)) {
                        assert(enc_script(v) =~= enc_text(v.alias) + (enc_opt(v.description)
                            + (enc_text(v.command) + (enc_list(v.tags) + enc_opt(v.reference)))));
                        lemma_starts_split(
                            s@,
                            start,
                            enc_text(v.alias),
                            enc_opt(v.description) + (enc_text(v.command) + (enc_list(v.tags)
                                + enc_opt(v.reference))),
                        );
                        lemma_match_text(s@, start, i1 as int, alias@, v.alias);
                        lemma_starts_split(
                            s@,
                            i1 as int,
                            enc_opt(v.description),
                            enc_text(v.command) + (enc_list(v.tags) + enc_opt(v.reference)),
                        );
                    }
                }
            }
            return Err(e);
        },
    };
    let (command, i3) = match parse_text(s, i2) {
        Ok(p) => p,
        Err(e) => {
            proof {
                assert forall|v: ScriptView| script_fits(v) implies !starts_at(
                    s@,
                    start,
                    #[trigger] enc_script(v),
                ) by {
                    if starts_at(s@, start, enc_script(v)) {
                        assert(enc_script(v) =~= enc_text(v.alias) + (enc_opt(v.description)
                            + (enc_text(v.command) + (enc_list(v.tags) + enc_opt(v.reference)))));
                        lemma_starts_split(
                            s@,
                            start,
                            enc_text(v.alias),
                            enc_opt(v.description) + (enc_text(v.command) + (enc_list(v.tags)
                                + enc_opt(v.reference))),
                        );
                        lemma_match_text(s@, start, i1 as int, alias@, v.alias);
                        lemma_starts_split(
                            s@,
                            i1 as int,
                            enc_opt(v.description),
                            enc_text(v.command) + (enc_list(v.tags) + enc_opt(v.reference)),
                        );
                        lemma_match_opt(
                            s@,
                            i1 as int,
                            i2 as int,
                            description.deep_view(),
                            v.description,
                        );
                        lemma_starts_split(
                            s@,
                            i2 as int,
                            enc_text(v.command),
                            enc_list(v.tags) + enc_opt(v.reference),
                        );
                    }
                }
            }
            return Err(e);
        },
    };
    let (tags, i4) = match parse_list(s, i3) {
        Ok(p) => p,
        Err(e) => {
            proof {
                assert forall|v: ScriptView| script_fits(v) implies !starts_at(
                    s@,
                    start,
                    #[trigger] enc_script(v),
                ) by {
                    if starts_at(s@, start, enc_script(v)) {
                        assert(enc_script(v) =~= enc_text(v.alias) + (enc_opt(v.description)
                            + (enc_text(v.command) + (enc_list(v.tags) + enc_opt(v.reference)))));
                        lemma_starts_split(
                            s@,
                            start,
                            enc_text(v.alias),
                            enc_opt(v.description) + (enc_text(v.command) + (enc_list(v.tags)
                                + enc_opt(v.reference))),
                        );
                        lemma_match_text(s@, start, i1 as int, alias@, v.alias);
                        lemma_starts_split(
                            s@,
                            i1 as int,
                            enc_opt(v.description),
                            enc_text(v.command) + (enc_list(v.tags) + enc_opt(v.reference)),
                        );
                        lemma_match_opt(
                            s@,
                            i1 as int,
                            i2 as int,
                            description.deep_view(),
                            v.description,
                        );
                        lemma_starts_split(
                            s@,
                            i2 as int,
                            enc_text(v.command),
                            enc_list(v.tags) + enc_opt(v.reference),
                        );
                        lemma_match_text(s@, i2 as int, i3 as int, command@, v.command);
                        lemma_starts_split(s@, i3 as int, enc_list(v.tags), enc_opt(v.reference));
                    }
                }
            }
            return Err(e);
        },
    };
    let (reference, i5) = match parse_opt(s, i4) {
        Ok(p) => p,
        Err(e) => {
            proof {
                assert forall|v: ScriptView| script_fits(v) implies !starts_at(
                    s@,
                    start,
                    #[trigger] enc_script(v),
                ) by {
                    if starts_at(s@, start, enc_script(v)) {
                        assert(enc_script(v) =~= enc_text(v.alias) + (enc_opt(v.description)
                            + (enc_text(v.command) + (enc_list(v.tags) + enc_opt(v.reference)))));
                        lemma_starts_split(
                            s@,
                            start,
                            enc_text(v.alias),
                            enc_opt(v.description) + (enc_text(v.command) + (enc_list(v.tags)
                                + enc_opt(v.reference))),
                        );
                        lemma_match_text(s@, start, i1 as int, alias@, v.alias);
                        lemma_starts_split(
                            s@,
                            i1 as int,
                            enc_opt(v.description),
                            enc_text(v.command) + (enc_list(v.tags) + enc_opt(v.reference)),
                        );
                        lemma_match_opt(
                            s@,
                            i1 as int,
                            i2 as int,
                            description.deep_view(),
                            v.description,
                        );
                        lemma_starts_split(
                            s@,
                            i2 as int,
                            enc_text(v.command),
                            enc_list(v.tags) + enc_opt(v.reference),
                        );
                        lemma_match_text(s@, i2 as int, i3 as int, command@, v.command);
                        lemma_starts_split(s@, i3 as int, enc_list(v.tags), enc_opt(v.reference));
                        lemma_match_list(s@, i3 as int, i4 as int, tags.deep_view(), v.tags);
                        assert(starts_at(s@, i4 as int, enc_opt(v.reference)));
                    }
                }
            }
            return Err(e);
        },
    };
    let sc = Script { alias, description, command, tags, reference };
    proof {
        assert(s@.subrange(start, i5 as int) =~= enc_script(sc@));
    }
    Ok((sc, i5))
}

/// Reads exactly `n` scripts at offset `i`.
fn parse_scripts(s: &str, i: usize, n: usize) -> (r: Result<(Vec<Script>, usize), PierError>)
    ensures
        match r {
            Ok((v, j)) => v@.len() == n && i <= j <= s@.len() && s@.subrange(i as int, j as int)
                == enc_scripts(v.deep_view()) && each_script_fits(v.deep_view()),
            Err(e) => e == PierError::LoadError && forall|ss: Seq<ScriptView>|
                ss.len() == n && each_script_fits(ss) ==> !starts_at(
                    s@,
                    i as int,
                    #[trigger] enc_scripts(ss),
                ),
        },
    decreases n,
{
    if n == 0 {
        if i > s.unicode_len() {
            return Err(PierError::LoadError);
        }
        let v: Vec<Script> = Vec::new();
        proof {
            assert(s@.subrange(i as int, i as int) =~= enc_scripts(v.deep_view()));
        }
        return Ok((v, i));
    }
    match parse_script(s, i) {
        Ok((sc, j)) => {
            match parse_scripts(s, j, n - 1) {
                Ok((mut rest, j2)) => {
                    let ghost tail = rest.deep_view();
                    rest.insert(0, sc);
                    proof {
                        let whole = rest.deep_view();
                        assert(whole.len() == n as nat);
                        assert(whole[0] == sc@);
                        assert(whole.subrange(1, whole.len() as int) =~= tail);
                        assert(s@.subrange(i as int, j2 as int) =~= enc_script(sc@) + enc_scripts(
                            tail,
                        ));
                        assert(enc_scripts(whole) == enc_script(sc@) + enc_scripts(tail));
                        assert forall|q: int| 0 <= q < whole.len() implies script_fits(
                            #[trigger] whole[q],
                        ) by {
                            if q >= 1 {
                                assert(whole[q] == tail[q - 1]);
                                assert(script_fits(tail[q - 1]));
                            }
                        }
                    }
                    Ok((rest, j2))
                },
                Err(e) => {
                    proof {
                        assert forall|ss: Seq<ScriptView>|
                            ss.len() == n && each_script_fits(ss) implies !starts_at(
                            s@,
                            i as int,
                            #[trigger] enc_scripts(ss),
                        ) by {
                            if starts_at(s@, i as int, enc_scripts(ss)) {
                                let tail2 = ss.subrange(1, ss.len() as int);
                                assert(enc_scripts(ss) == enc_script(ss[0]) + enc_scripts(tail2));
                                lemma_starts_split(
                                    s@,
                                    i as int,
                                    enc_script(ss[0]),
                                    enc_scripts(tail2),
                                );
                                assert(script_fits(ss[0]));
                                lemma_match_script(s@, i as int, j as int, sc@, ss[0]);
                                assert(each_script_fits(tail2)) by {
                                    assert(forall|q: int| 0 <= q < tail2.len() ==> tail2[q] == ss[
                                        q + 1
                                    ]);
                                }
                                assert(starts_at(s@, j as int, enc_scripts(tail2)));
                            }
                        }
                    }
                    Err(e)
                },
            }
        },
        Err(e) => {
            proof {
                assert forall|ss: Seq<ScriptView>|
                    ss.len() == n && each_script_fits(ss) implies !starts_at(
                    s@,
                    i as int,
                    #[trigger] enc_scripts(ss),
                ) by {
                    if starts_at(s@, i as int, enc_scripts(ss)) {
                        let tail2 = ss.subrange(1, ss.len() as int);
                        assert(enc_scripts(ss) == enc_script(ss[0]) + enc_scripts(tail2));
                        lemma_starts_split(s@, i as int, enc_script(ss[0]), enc_scripts(tail2));
                        assert(script_fits(ss[0]));
                    }
                }
            }
            Err(e)
        },
    }
}

/// Reads a whole persisted text back into scripts. Accepts exactly the texts
/// that `encode_scripts` writes: whenever the text is the encoding of some
/// machine-representable script sequence, the read succeeds with it;
/// everything else is `LoadError`.
pub fn decode_scripts(s: &str) -> (r: Result<Vec<Script>, PierError>)
    ensures
        match r {
            Ok(v) => s@ == enc_store(v.deep_view()) && store_fits(v.deep_view()),
            Err(e) => e == PierError::LoadError && forall|ss: Seq<ScriptView>|
                store_fits(ss) ==> s@ != #[trigger] enc_store(ss),
        },
{
    let total = s.unicode_len();
    let ghost whole = s@;
    match parse_len(s, 0) {
        Ok((n, j)) => {
            proof {
                lemma_pad_shape(n as nat, 20);
                assert(whole.subrange(0, 20) == pad(n as nat, 20));
            }
            match parse_scripts(s, j, n) {
                Ok((v, j2)) => {
                    if j2 != total {
                        proof {
                            assert forall|ss: Seq<ScriptView>| store_fits(ss) implies whole
                                != #[trigger] enc_store(ss) by {
                                if whole == enc_store(ss) {
                                    assert(starts_at(whole, 0, pad(ss.len(), 20) + enc_scripts(
                                        ss,
                                    ))) by {
                                        assert(whole.subrange(0, whole.len() as int) =~= whole);
                                    }
                                    lemma_starts_split(whole, 0, pad(ss.len(), 20), enc_scripts(ss));
                                    lemma_match_pad(whole, 0, j as int, n as nat, ss.len());
                                    lemma_match_scripts_full(whole, j as int, j2 as int, v.deep_view(), ss);
                                }
                            }
                        }
                        return Err(PierError::LoadError);
                    }
                    proof {
                        assert(whole.subrange(20, j2 as int) == enc_scripts(v.deep_view()));
                        assert(whole =~= pad(n as nat, 20) + enc_scripts(v.deep_view()));
                        assert(v.deep_view().len() == n as nat);
                    }
                    Ok(v)
                },
                Err(e) => {
                    proof {
                        assert forall|ss: Seq<ScriptView>| store_fits(ss) implies whole
                            != #[trigger] enc_store(ss) by {
                            if whole == enc_store(ss) {
                                assert(starts_at(whole, 0, pad(ss.len(), 20) + enc_scripts(ss)))
                                    by {
                                    assert(whole.subrange(0, whole.len() as int) =~= whole);
                                }
                                lemma_starts_split(whole, 0, pad(ss.len(), 20), enc_scripts(ss));
                                lemma_match_pad(whole, 0, j as int, n as nat, ss.len());
                            }
                        }
                    }
                    Err(e)
                },
            }
        },
        Err(e) => {
            proof {
                assert forall|ss: Seq<ScriptView>| store_fits(ss) implies whole != #[trigger] enc_store(
                    ss,
                ) by {
                    if whole == enc_store(ss) {
                        assert(starts_at(whole, 0, pad(ss.len(), 20) + enc_scripts(ss))) by {
                            assert(whole.subrange(0, whole.len() as int) =~= whole);
                        }
                        lemma_starts_split(whole, 0, pad(ss.len(), 20), enc_scripts(ss));
                    }
                }
            }
            Err(e)
        },
    }
}

/// A parsed run of scripts that is followed by trailing text cannot also be a
/// run that reaches the end of the text.
proof fn lemma_match_scripts_full(
    s: Seq<char>,
    i: int,
    j: int,
    va: Seq<ScriptView>,
    vb: Seq<ScriptView>,
)
    requires
        0 <= i <= j <= s.len(),
        s.subrange(i, j) == enc_scripts(va),
        each_script_fits(va),
        each_script_fits(vb),
        va.len() == vb.len(),
        i + enc_scripts(vb).len() == s.len(),
        starts_at(s, i, enc_scripts(vb)),
    ensures
        va == vb,
        j == s.len(),
{
    let latest = s.len() as int;
    let u = s.subrange(i, latest);
    assert(u =~= enc_scripts(va) + s.subrange(j, latest));
    assert(u =~= enc_scripts(vb) + s.subrange(latest, latest));
    lemma_enc_scripts_inj(va, vb, s.subrange(j, latest), s.subrange(latest, latest));
    assert(s.subrange(j, latest).len() == 0);
}

// ---------------------------------------------------------------------------
// The encoder.
// ---------------------------------------------------------------------------

/// The digit character for `d`, as text.
fn digit_str(d: usize) -> (r: &'static str)
    requires
        d < 10,
    ensures
        r@ =~= seq![digit_char(d as nat)],
{
    proof {
        reveal_strlit("0");
        reveal_strlit("1");
        reveal_strlit("2");
        reveal_strlit("3");
        reveal_strlit("4");
        reveal_strlit("5");
        reveal_strlit("6");
        reveal_strlit("7");
        reveal_strlit("8");
        reveal_strlit("9");
    }
    match d {
        0 => "0",
        1 => "1",
        2 => "2",
        3 => "3",
        4 => "4",
        5 => "5",
        6 => "6",
        7 => "7",
        8 => "8",
        _ => "9",
    }
}

/// Writes `n` as exactly `w` decimal digits.
fn pad_str(n: usize, w: usize) -> (r: String)
    ensures
        r@ == pad(n as nat, w as nat),
    decreases w,
{
    if w == 0 {
        let r = String::new();
        assert(r@ =~= pad(n as nat, 0));
        r
    } else {
        let mut r = pad_str(n / 10, w - 1);
        r.append(digit_str(n % 10));
        assert(r@ =~= pad(n as nat, w as nat));
        r
    }
}

/// Appends the encoding of one text.
fn push_text(out: &mut String, s: &str)
    ensures
        final(out)@ == old(out)@ + enc_text(s@),
        fits(s@),
{
    let n = s.unicode_len();
    let p = pad_str(n, 20);
    out.append(p.as_str());
    out.append(s);
    assert(final(out)@ =~= old(out)@ + enc_text(s@));
}

/// Appends the encoding of one optional text.
fn push_opt(out: &mut String, o: &Option<String>)
    ensures
        final(out)@ == old(out)@ + enc_opt(o.deep_view()),
        opt_fits(o.deep_view()),
{
    proof {
        reveal_strlit("n");
        reveal_strlit("s");
    }
    match o {
        None => {
            out.append("n");
            assert(final(out)@ =~= old(out)@ + enc_opt(None));
        },
        Some(s) => {
            out.append("s");
            push_text(out, s.as_str());
            assert(final(out)@ =~= old(out)@ + enc_opt(Some(s@)));
        },
    }
}

/// Appends the encoding of a tag list.
fn push_list(out: &mut String, ts: &Vec<String>)
    ensures
        final(out)@ == old(out)@ + enc_list(ts.deep_view()),
        texts_fit(ts.deep_view()),
{
    let p = pad_str(ts.len(), 20);
    out.append(p.as_str());
    let ghost full = ts.deep_view();
    let mut i: usize = 0;
    proof {
        assert(full.subrange(0, full.len() as int) =~= full);
        assert(out@ =~= old(out)@ + pad(ts@.len(), 20));
        assert(out@ + enc_texts(full) =~= old(out)@ + pad(ts@.len(), 20) + enc_texts(full));
    }
    while i < ts.len()
        invariant
            i <= ts@.len(),
            full == ts.deep_view(),
            full.len() == ts@.len(),
            out@ + enc_texts(full.subrange(i as int, full.len() as int)) == old(out)@ + pad(
                ts@.len(),
                20,
            ) + enc_texts(full),
            forall|q: int| 0 <= q < i as int ==> fits(#[trigger] full[q]),
        decreases ts@.len() - i,
    {
        proof {
            let suf = full.subrange(i as int, full.len() as int);
            assert(suf[0] == full[i as int]);
            assert(full[i as int] == ts@[i as int]@);
            assert(suf.subrange(1, suf.len() as int) =~= full.subrange(
                i as int + 1,
                full.len() as int,
            ));
        }
        push_text(out, ts[i].as_str());
        proof {
            let suf = full.subrange(i as int, full.len() as int);
            assert(out@ + enc_texts(full.subrange(i as int + 1, full.len() as int)) =~= (old(
                out,
            )@ + pad(ts@.len(), 20) + enc_texts(full)));
        }
        i = i + 1;
    }
    proof {
        assert(full.subrange(full.len() as int, full.len() as int) =~= Seq::<Seq<char>>::empty());
        assert(out@ + Seq::<char>::empty() =~= out@);
        assert(final(out)@ =~= old(out)@ + enc_list(ts.deep_view()));
    }
}

/// Appends the encoding of one script.
fn push_script(out: &mut String, s: &Script)
    ensures
        final(out)@ == old(out)@ + enc_script(s@),
        script_fits(s@),
{
    push_text(out, s.alias.as_str());
    push_opt(out, &s.description);
    push_text(out, s.command.as_str());
    push_list(out, &s.tags);
    push_opt(out, &s.reference);
    assert(final(out)@ =~= old(out)@ + enc_script(s@));
}

/// The persisted text for a sequence of scripts.
pub fn encode_scripts(scripts: &Vec<Script>) -> (r: String)
    ensures
        r@ == enc_store(scripts.deep_view()),
        store_fits(scripts.deep_view()),
{
    let mut out = String::new();
    let p = pad_str(scripts.len(), 20);
    out.append(p.as_str());
    let ghost full = scripts.deep_view();
    let mut i: usize = 0;
    proof {
        assert(out@ =~= pad(scripts@.len(), 20));
        assert(full.subrange(0, full.len() as int) =~= full);
    }
    while i < scripts.len()
        invariant
            i <= scripts@.len(),
            full == scripts.deep_view(),
            full.len() == scripts@.len(),
            out@ + enc_scripts(full.subrange(i as int, full.len() as int)) == pad(
                scripts@.len(),
                20,
            ) + enc_scripts(full),
            forall|q: int| 0 <= q < i as int ==> script_fits(#[trigger] full[q]),
        decreases scripts@.len() - i,
    {
        proof {
            let suf = full.subrange(i as int, full.len() as int);
            assert(suf[0] == full[i as int]);
            assert(full[i as int] == scripts@[i as int]@);
            assert(suf.subrange(1, suf.len() as int) =~= full.subrange(
                i as int + 1,
                full.len() as int,
            ));
        }
        push_script(&mut out, &scripts[i]);
        proof {
            assert(out@ + enc_scripts(full.subrange(i as int + 1, full.len() as int)) =~= (pad(
                scripts@.len(),
                20,
            ) + enc_scripts(full)));
        }
        i = i + 1;
    }
    proof {
        assert(full.subrange(full.len() as int, full.len() as int) =~= Seq::<ScriptView>::empty());
        assert(out@ + Seq::<char>::empty() =~= out@);
        assert(out@ =~= enc_store(scripts.deep_view()));
    }
    out
}

} // verus!
