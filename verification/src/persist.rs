//! The persistence codec: the whole active set as one flat document of
//! characters, written after every mutation and read back at startup.
//!
//! The format is a canonical, self-delimiting text: every number is its
//! decimal digits followed by one space, the symbol is one raw character
//! followed by one space, and the title comes last in each record,
//! length-prefixed. `spec_encode` and `spec_decode` define the format;
//! the executable encoder and decoder implement exactly those functions,
//! and decoding an encoded well-formed store provably gives the store
//! back.

use vstd::prelude::*;

use crate::giveaway::GiveawayModel;
use crate::store::{all_wf, distinct_ids};

verus! {

// ---------------------------------------------------------------------
// The format, spec side: encoding.
// ---------------------------------------------------------------------

/// The decimal digit character for `d`.
pub open spec fn spec_digit(d: int) -> char {
    if d == 0 {
        '0'
    } else if d == 1 {
        '1'
    } else if d == 2 {
        '2'
    } else if d == 3 {
        '3'
    } else if d == 4 {
        '4'
    } else if d == 5 {
        '5'
    } else if d == 6 {
        '6'
    } else if d == 7 {
        '7'
    } else if d == 8 {
        '8'
    } else {
        '9'
    }
}

/// The decimal digits of `n`, most significant first, no leading zeros.
pub open spec fn spec_digits(n: nat) -> Seq<char>
    decreases n,
{
    if n < 10 {
        seq![spec_digit(n as int)]
    } else {
        spec_digits(n / 10).push(spec_digit((n % 10) as int))
    }
}

/// One number token: digits and the closing space.
pub open spec fn numtok(n: nat) -> Seq<char> {
    spec_digits(n).push(' ')
}

/// The participant row, one number token per entry.
pub open spec fn enc_users(users: Seq<u64>) -> Seq<char>
    decreases users.len(),
{
    if users.len() == 0 {
        Seq::empty()
    } else {
        numtok(users[0] as nat) + enc_users(users.drop_first())
    }
}

/// The deadline: a presence flag, then the timestamp if there is one.
pub open spec fn enc_time(time: Option<i64>) -> Seq<char> {
    match time {
        Option::None => numtok(0),
        Option::Some(t) => numtok(1) + numtok(t as nat),
    }
}

/// One drawing record; the title is length-prefixed and comes last.
pub open spec fn enc_record(g: GiveawayModel) -> Seq<char> {
    numtok(g.id as nat) + numtok(g.message as nat) + numtok(g.channel as nat) + numtok(
        g.guild as nat,
    ) + seq![g.emoji, ' '] + enc_time(g.time) + numtok(g.winner_count as nat) + numtok(
        g.users.len(),
    ) + enc_users(g.users) + numtok(g.title.len()) + g.title
}

/// All records, one after the other.
pub open spec fn enc_records(s: Seq<GiveawayModel>) -> Seq<char>
    decreases s.len(),
{
    if s.len() == 0 {
        Seq::empty()
    } else {
        enc_record(s[0]) + enc_records(s.drop_first())
    }
}

/// The whole document: the record count, then every record.
pub open spec fn spec_encode(s: Seq<GiveawayModel>) -> Seq<char> {
    numtok(s.len()) + enc_records(s)
}

// ---------------------------------------------------------------------
// The format, spec side: decoding.
// ---------------------------------------------------------------------

pub open spec fn is_digit(c: char) -> bool {
    '0' <= c && c <= '9'
}

pub open spec fn digit_val(c: char) -> int {
    if c == '0' {
        0
    } else if c == '1' {
        1
    } else if c == '2' {
        2
    } else if c == '3' {
        3
    } else if c == '4' {
        4
    } else if c == '5' {
        5
    } else if c == '6' {
        6
    } else if c == '7' {
        7
    } else if c == '8' {
        8
    } else {
        9
    }
}

/// Length of the digit prefix of `s`.
pub open spec fn digit_run(s: Seq<char>) -> nat
    decreases s.len(),
{
    if s.len() == 0 || !is_digit(s[0]) {
        0
    } else {
        (1 + digit_run(s.drop_first())) as nat
    }
}

/// The value of a row of digit characters.
pub open spec fn val_of(ds: Seq<char>) -> int
    decreases ds.len(),
{
    if ds.len() == 0 {
        0
    } else {
        val_of(ds.drop_last()) * 10 + digit_val(ds.last())
    }
}

/// Reads one number token not exceeding `bound`; what follows the space.
pub open spec fn parse_num(s: Seq<char>, bound: int) -> Option<(int, Seq<char>)> {
    let k = digit_run(s) as int;
    if k == 0 {
        Option::None
    } else if k >= s.len() {
        Option::None
    } else if s[k] != ' ' {
        Option::None
    } else if val_of(s.take(k)) > bound {
        Option::None
    } else {
        Option::Some((val_of(s.take(k)), s.skip(k + 1)))
    }
}

/// Reads one raw character and its closing space.
pub open spec fn parse_char(s: Seq<char>) -> Option<(char, Seq<char>)> {
    if s.len() >= 2 && s[1] == ' ' {
        Option::Some((s[0], s.skip(2)))
    } else {
        Option::None
    }
}

/// Reads the deadline: flag, then timestamp when the flag says so.
pub open spec fn parse_time(s: Seq<char>) -> Option<(Option<i64>, Seq<char>)> {
    match parse_num(s, 1) {
        Option::None => Option::None,
        Option::Some((flag, r)) => if flag == 0 {
            Option::Some((Option::None, r))
        } else {
            match parse_num(r, i64::MAX as int) {
                Option::None => Option::None,
                Option::Some((t, r2)) => Option::Some((Option::Some(t as i64), r2)),
            }
        },
    }
}

/// Reads `n` participant entries.
pub open spec fn parse_users(s: Seq<char>, n: nat) -> Option<(Seq<u64>, Seq<char>)>
    decreases n,
{
    if n == 0 {
        Option::Some((Seq::empty(), s))
    } else {
        match parse_num(s, u64::MAX as int) {
            Option::None => Option::None,
            Option::Some((u, r)) => match parse_users(r, (n - 1) as nat) {
                Option::None => Option::None,
                Option::Some((us, r2)) => Option::Some((seq![u as u64] + us, r2)),
            },
        }
    }
}

/// Reads `n` raw characters of title.
pub open spec fn parse_title(s: Seq<char>, n: nat) -> Option<(Seq<char>, Seq<char>)> {
    if s.len() >= n {
        Option::Some((s.take(n as int), s.skip(n as int)))
    } else {
        Option::None
    }
}

/// Reads one drawing record.
pub open spec fn parse_record(s: Seq<char>) -> Option<(GiveawayModel, Seq<char>)> {
    match parse_num(s, u32::MAX as int) {
        Option::None => Option::None,
        Option::Some((id, s)) => match parse_num(s, u64::MAX as int) {
            Option::None => Option::None,
            Option::Some((message, s)) => match parse_num(s, u64::MAX as int) {
                Option::None => Option::None,
                Option::Some((channel, s)) => match parse_num(s, u64::MAX as int) {
                    Option::None => Option::None,
                    Option::Some((guild, s)) => match parse_char(s) {
                        Option::None => Option::None,
                        Option::Some((emoji, s)) => match parse_time(s) {
                            Option::None => Option::None,
                            Option::Some((time, s)) => match parse_num(s, u16::MAX as int) {
                                Option::None => Option::None,
                                Option::Some((wc, s)) => match parse_num(s, usize::MAX as int) {
                                    Option::None => Option::None,
                                    Option::Some((nusers, s)) => match parse_users(
                                        s,
                                        nusers as nat,
                                    ) {
                                        Option::None => Option::None,
                                        Option::Some((users, s)) => match parse_num(
                                            s,
                                            usize::MAX as int,
                                        ) {
                                            Option::None => Option::None,
                                            Option::Some((tlen, s)) => match parse_title(
                                                s,
                                                tlen as nat,
                                            ) {
                                                Option::None => Option::None,
                                                Option::Some((title, s)) => Option::Some(
                                                    (
                                                        GiveawayModel {
                                                            id: id as u32,
                                                            title,
                                                            message: message as u64,
                                                            channel: channel as u64,
                                                            guild: guild as u64,
                                                            emoji,
                                                            time,
                                                            users,
                                                            winner_count: wc as u16,
                                                        },
                                                        s,
                                                    ),
                                                ),
                                            },
                                        },
                                    },
                                },
                            },
                        },
                    },
                },
            },
        },
    }
}

/// Reads `n` records.
pub open spec fn parse_records(s: Seq<char>, n: nat) -> Option<(Seq<GiveawayModel>, Seq<char>)>
    decreases n,
{
    if n == 0 {
        Option::Some((Seq::empty(), s))
    } else {
        match parse_record(s) {
            Option::None => Option::None,
            Option::Some((g, r)) => match parse_records(r, (n - 1) as nat) {
                Option::None => Option::None,
                Option::Some((gs, r2)) => Option::Some((seq![g] + gs, r2)),
            },
        }
    }
}

/// The whole document: accepted only when nothing trails the last record
/// and the decoded store satisfies the store invariant.
pub open spec fn spec_decode(s: Seq<char>) -> Option<Seq<GiveawayModel>> {
    match parse_num(s, usize::MAX as int) {
        Option::None => Option::None,
        Option::Some((n, r)) => match parse_records(r, n as nat) {
            Option::None => Option::None,
            Option::Some((gs, r2)) => if r2.len() == 0 && all_wf(gs) && distinct_ids(gs) {
                Option::Some(gs)
            } else {
                Option::None
            },
        },
    }
}

// ---------------------------------------------------------------------
// Digits: basic facts.
// ---------------------------------------------------------------------

/// Every character that `spec_digits` emits is a digit, and its row is
/// never empty.
pub proof fn lemma_digits_are_digits(n: nat)
    ensures
        spec_digits(n).len() >= 1,
        forall|i: int| 0 <= i < spec_digits(n).len() ==> is_digit(#[trigger] spec_digits(n)[i]),
    decreases n,
{
    if n < 10 {
        assert(is_digit(spec_digit(n as int)));
    } else {
        lemma_digits_are_digits(n / 10);
        assert(is_digit(spec_digit((n % 10) as int)));
    }
}

/// Reading the digit row of `n` back gives `n`.
pub proof fn lemma_digits_value(n: nat)
    ensures
        val_of(spec_digits(n)) == n,
    decreases n,
{
    if n < 10 {
        let ds = spec_digits(n);
        assert(ds.drop_last() =~= Seq::<char>::empty());
        assert(ds.last() == spec_digit(n as int));
        assert(digit_val(spec_digit(n as int)) == n);
        assert(val_of(ds) == val_of(ds.drop_last()) * 10 + digit_val(ds.last()));
        assert(val_of(ds.drop_last()) == 0);
    } else {
        lemma_digits_value(n / 10);
        let ds = spec_digits(n);
        assert(ds.drop_last() =~= spec_digits(n / 10));
        assert(digit_val(spec_digit((n % 10) as int)) == n % 10);
        assert(val_of(ds) == (n / 10) * 10 + n % 10);
        vstd::arithmetic::div_mod::lemma_fundamental_div_mod(n as int, 10);
        assert((n / 10) * 10 + n % 10 == n);
    }
}

/// The digit run of a row that starts with `k` digits and then stops
/// being digits is exactly `k`.
pub proof fn lemma_digit_run_exact(s: Seq<char>, k: int)
    requires
        0 <= k <= s.len(),
        forall|j: int| 0 <= j < k ==> is_digit(#[trigger] s[j]),
        k == s.len() || !is_digit(s[k]),
    ensures
        digit_run(s) == k,
    decreases k,
{
    if k == 0 {
    } else {
        assert(is_digit(s[0]));
        lemma_digit_run_exact(s.drop_first(), k - 1);
    }
}

/// A longer digit row never reads back as a smaller value.
pub proof fn lemma_val_of_nonneg(s: Seq<char>)
    requires
        forall|j: int| 0 <= j < s.len() ==> is_digit(#[trigger] s[j]),
    ensures
        val_of(s) >= 0,
    decreases s.len(),
{
    if s.len() > 0 {
        lemma_val_of_nonneg(s.drop_last());
        assert(is_digit(s.last()));
    }
}

/// Extending a digit row only grows its value.
pub proof fn lemma_val_of_prefix(s: Seq<char>, p: int)
    requires
        0 <= p <= s.len(),
        forall|j: int| 0 <= j < s.len() ==> is_digit(#[trigger] s[j]),
    ensures
        val_of(s.take(p)) <= val_of(s),
    decreases s.len() - p,
{
    if p == s.len() {
        assert(s.take(p) =~= s);
    } else {
        lemma_val_of_prefix(s.drop_last(), p);
        assert(s.drop_last().take(p) =~= s.take(p));
        lemma_val_of_nonneg(s.drop_last());
        assert(is_digit(s.last()));
        assert(val_of(s) == val_of(s.drop_last()) * 10 + digit_val(s.last()));
        assert(val_of(s.drop_last()) * 10 >= val_of(s.drop_last())) by (nonlinear_arith)
            requires
                val_of(s.drop_last()) >= 0,
        ;
    }
}

/// Reading the token of `n` from the front of a document yields `n` and
/// the document's remainder.
pub proof fn lemma_parse_numtok(n: nat, bound: int, rest: Seq<char>)
    requires
        n <= bound,
    ensures
        parse_num(numtok(n) + rest, bound) == Option::Some((n as int, rest)),
{
    let ds = spec_digits(n);
    let s = numtok(n) + rest;
    let k = ds.len() as int;
    lemma_digits_are_digits(n);
    lemma_digits_value(n);
    assert(forall|j: int| 0 <= j < k ==> #[trigger] s[j] == ds[j]);
    assert(s[k] == ' ');
    assert(!is_digit(' '));
    lemma_digit_run_exact(s, k);
    assert(s.take(k) =~= ds);
    assert(s.skip(k + 1) =~= rest);
}

// ---------------------------------------------------------------------
// Encoding, exec side.
// ---------------------------------------------------------------------

/// Appending one entry to a participant row appends its token.
pub proof fn lemma_enc_users_snoc(users: Seq<u64>, u: u64)
    ensures
        enc_users(users.push(u)) == enc_users(users) + numtok(u as nat),
    decreases users.len(),
{
    let p = users.push(u);
    if users.len() == 0 {
        assert(p.drop_first() =~= Seq::<u64>::empty());
        assert(p[0] == u);
        assert(enc_users(p) == numtok(u as nat) + enc_users(p.drop_first()));
        assert(enc_users(p) =~= enc_users(users) + numtok(u as nat));
    } else {
        assert(p.drop_first() =~= users.drop_first().push(u));
        lemma_enc_users_snoc(users.drop_first(), u);
        assert(p[0] == users[0]);
        assert(enc_users(p) == numtok(p[0] as nat) + enc_users(p.drop_first()));
        assert(enc_users(p.drop_first()) == enc_users(users.drop_first()) + numtok(u as nat));
        assert(numtok(users[0] as nat) + (enc_users(users.drop_first()) + numtok(u as nat)) =~= (
        numtok(users[0] as nat) + enc_users(users.drop_first())) + numtok(u as nat));
        assert(enc_users(users) == numtok(users[0] as nat) + enc_users(users.drop_first()));
    }
}

/// Appending one record to a store appends its encoding.
pub proof fn lemma_enc_records_snoc(s: Seq<GiveawayModel>, g: GiveawayModel)
    ensures
        enc_records(s.push(g)) == enc_records(s) + enc_record(g),
    decreases s.len(),
{
    let p = s.push(g);
    if s.len() == 0 {
        assert(p.drop_first() =~= Seq::<GiveawayModel>::empty());
        assert(p[0] == g);
        assert(enc_records(p) == enc_record(g) + enc_records(p.drop_first()));
        assert(enc_records(p) =~= enc_records(s) + enc_record(g));
    } else {
        assert(p.drop_first() =~= s.drop_first().push(g));
        lemma_enc_records_snoc(s.drop_first(), g);
        assert(p[0] == s[0]);
        assert(enc_records(p) == enc_record(p[0]) + enc_records(p.drop_first()));
        assert(enc_records(p.drop_first()) == enc_records(s.drop_first()) + enc_record(g));
        assert(enc_record(s[0]) + (enc_records(s.drop_first()) + enc_record(g)) =~= (enc_record(
        s[0],
        ) + enc_records(s.drop_first())) + enc_record(g));
        assert(enc_records(s) == enc_record(s[0]) + enc_records(s.drop_first()));
    }
}

/// The decimal digit character for `d`.
fn digit_char(d: u64) -> (c: char)
    requires
        d < 10,
    ensures
        c == spec_digit(d as int),
{
    match d {
        0 => '0',
        1 => '1',
        2 => '2',
        3 => '3',
        4 => '4',
        5 => '5',
        6 => '6',
        7 => '7',
        8 => '8',
        _ => '9',
    }
}

/// Appends the decimal digits of `n`.
fn push_digits(out: &mut Vec<char>, n: u64)
    ensures
        final(out)@ == old(out)@ + spec_digits(n as nat),
    decreases n,
{
    if n < 10 {
        out.push(digit_char(n));
        assert(out@ =~= old(out)@ + spec_digits(n as nat));
    } else {
        push_digits(out, n / 10);
        out.push(digit_char(n % 10));
        assert(out@ =~= old(out)@ + spec_digits(n as nat));
    }
}

/// Appends one number token.
fn push_numtok(out: &mut Vec<char>, n: u64)
    ensures
        final(out)@ == old(out)@ + numtok(n as nat),
{
    push_digits(out, n);
    out.push(' ');
    assert(out@ =~= old(out)@ + numtok(n as nat));
}

/// Appends one drawing record.
#[verifier::rlimit(60)]
fn push_record(out: &mut Vec<char>, g: &crate::giveaway::Giveaway)
    requires
        g.wf(),
    ensures
        final(out)@ == old(out)@ + enc_record(g@),
{
    let ghost base = old(out)@;
    let ghost pa = numtok(g@.id as nat);
    let ghost pb = numtok(g@.message as nat);
    let ghost pc = numtok(g@.channel as nat);
    let ghost pd = numtok(g@.guild as nat);
    let ghost pe = seq![g@.emoji, ' '];
    let ghost pf = enc_time(g@.time);
    let ghost pg = numtok(g@.winner_count as nat);
    let ghost ph = numtok(g@.users.len());
    let ghost pi = enc_users(g@.users);
    let ghost pj = numtok(g@.title.len());
    let ghost pk = g@.title;
    push_numtok(out, g.id.0 as u64);
    push_numtok(out, g.message);
    assert(out@ =~= base + (pa + pb));
    push_numtok(out, g.channel);
    assert(out@ =~= base + (pa + pb + pc));
    push_numtok(out, g.guild);
    assert(out@ =~= base + (pa + pb + pc + pd));
    out.push(g.emoji);
    out.push(' ');
    assert(out@ =~= base + (pa + pb + pc + pd + pe));
    match g.time {
        None => {
            push_numtok(out, 0);
        },
        Some(t) => {
            push_numtok(out, 1);
            push_numtok(out, t as u64);
            assert(numtok(1) + numtok(t as nat) == pf);
        },
    }
    assert(out@ =~= base + (pa + pb + pc + pd + pe + pf));
    push_numtok(out, g.winner_count as u64);
    assert(out@ =~= base + (pa + pb + pc + pd + pe + pf + pg));
    push_numtok(out, g.users.len() as u64);
    assert(out@ =~= base + (pa + pb + pc + pd + pe + pf + pg + ph));
    let ghost mid = out@;
    let mut j: usize = 0;
    while j < g.users.len()
        invariant
            j <= g.users@.len(),
            out@ == mid + enc_users(g.users@.take(j as int)),
        decreases g.users@.len() - j,
    {
        let u = g.users[j];
        push_numtok(out, u);
        proof {
            lemma_enc_users_snoc(g.users@.take(j as int), u);
            assert(g.users@.take(j as int + 1) =~= g.users@.take(j as int).push(u));
            assert(out@ =~= mid + enc_users(g.users@.take(j as int + 1)));
        }
        j += 1;
    }
    proof {
        assert(g.users@.take(g.users@.len() as int) =~= g.users@);
        assert(out@ =~= base + (pa + pb + pc + pd + pe + pf + pg + ph + pi));
    }
    let title = g.title.as_str();
    let tlen = title.unicode_len();
    push_numtok(out, tlen as u64);
    assert(out@ =~= base + (pa + pb + pc + pd + pe + pf + pg + ph + pi + pj));
    let ghost mid2 = out@;
    let mut c: usize = 0;
    while c < tlen
        invariant
            c <= tlen,
            tlen as nat == title@.len(),
            title@ == g.title@,
            out@ == mid2 + title@.take(c as int),
        decreases tlen - c,
    {
        out.push(title.get_char(c));
        proof {
            assert(title@.take(c as int + 1) =~= title@.take(c as int).push(title@[c as int]));
            assert(out@ =~= mid2 + title@.take(c as int + 1));
        }
        c += 1;
    }
    proof {
        assert(title@.take(tlen as int) =~= title@);
        assert(out@ =~= base + (pa + pb + pc + pd + pe + pf + pg + ph + pi + pj + pk));
        assert(pa + pb + pc + pd + pe + pf + pg + ph + pi + pj + pk == enc_record(g@));
    }
}

impl crate::store::InnerState {
    /// Encodes the whole active set as one flat document.
    pub fn encode(&self) -> (out: Vec<char>)
        requires
            self.wf(),
        ensures
            out@ == spec_encode(self@),
    {
        let mut out: Vec<char> = Vec::new();
        push_numtok(&mut out, self.giveaways.len() as u64);
        let ghost mid = out@;
        let mut i: usize = 0;
        while i < self.giveaways.len()
            invariant
                i <= self.giveaways@.len(),
                self.wf(),
                out@ == mid + enc_records(self@.take(i as int)),
                mid == numtok(self@.len()),
            decreases self.giveaways@.len() - i,
        {
            assert(self@[i as int].wf());
            push_record(&mut out, &self.giveaways[i]);
            proof {
                lemma_enc_records_snoc(self@.take(i as int), self@[i as int]);
                assert(self@.take(i as int + 1) =~= self@.take(i as int).push(self@[i as int]));
                assert(out@ =~= mid + enc_records(self@.take(i as int + 1)));
            }
            i += 1;
        }
        proof {
            assert(self@.take(self@.len() as int) =~= self@);
            assert(out@ =~= spec_encode(self@));
        }
        out
    }
}


// ---------------------------------------------------------------------
// Decoding, exec side.
// ---------------------------------------------------------------------

/// Relies on String::push of std: appends exactly the given character.
pub assume_specification[ String::push ](s: &mut String, c: char)
    ensures
        final(s)@ == old(s)@.push(c),
;

/// The value of a digit character.
fn digit_value_of(c: char) -> (d: u64)
    requires
        is_digit(c),
    ensures
        d == digit_val(c),
        d < 10,
{
    if c == '0' {
        0
    } else if c == '1' {
        1
    } else if c == '2' {
        2
    } else if c == '3' {
        3
    } else if c == '4' {
        4
    } else if c == '5' {
        5
    } else if c == '6' {
        6
    } else if c == '7' {
        7
    } else if c == '8' {
        8
    } else {
        9
    }
}

/// Where the digit run that starts at `pos` ends.
fn digit_run_end(v: &Vec<char>, pos: usize) -> (e: usize)
    requires
        pos <= v@.len(),
    ensures
        pos <= e <= v@.len(),
        forall|q: int| pos <= q < e ==> is_digit(#[trigger] v@[q]),
        e == v@.len() || !is_digit(v@[e as int]),
{
    let mut i = pos;
    while i < v.len()
        invariant
            pos <= i <= v@.len(),
            forall|q: int| pos <= q < i ==> is_digit(#[trigger] v@[q]),
        decreases v@.len() - i,
    {
        let c = v[i];
        if !(c >= '0' && c <= '9') {
            return i;
        }
        i += 1;
    }
    i
}

/// Reads one number token starting at `pos`, exactly as `parse_num` does
/// on the document's tail.
fn read_num(v: &Vec<char>, pos: usize, bound: u64) -> (r: Option<(u64, usize)>)
    requires
        pos <= v@.len(),
    ensures
        r matches Some(p) ==> ({
            &&& parse_num(v@.skip(pos as int), bound as int) == Option::Some(
                (p.0 as int, v@.skip(p.1 as int)),
            )
            &&& pos < p.1 <= v@.len()
            &&& p.0 <= bound
        }),
        r is None ==> parse_num(v@.skip(pos as int), bound as int) is None,
{
    let ghost s = v@.skip(pos as int);
    let e = digit_run_end(v, pos);
    let ghost k = e - pos;
    proof {
        assert(forall|q: int| 0 <= q < s.len() ==> s[q] == v@[pos + q]);
        lemma_digit_run_exact(s, k);
    }
    if e == pos {
        return None;
    }
    if e == v.len() {
        assert(k >= s.len());
        return None;
    }
    if v[e] != ' ' {
        assert(s[k] != ' ');
        return None;
    }
    let ghost run = v@.subrange(pos as int, e as int);
    proof {
        assert(run =~= s.take(k));
        assert(forall|q: int| 0 <= q < run.len() ==> is_digit(#[trigger] run[q]));
    }
    let mut val: u64 = 0;
    let mut i = pos;
    while i < e
        invariant
            pos <= i <= e <= v@.len(),
            forall|q: int| pos <= q < e ==> is_digit(#[trigger] v@[q]),
            run == v@.subrange(pos as int, e as int),
            forall|q: int| 0 <= q < run.len() ==> is_digit(#[trigger] run[q]),
            val == val_of(v@.subrange(pos as int, i as int)),
            val <= bound,
            e < v@.len(),
            v@[e as int] == ' ',
            s == v@.skip(pos as int),
            k == e - pos,
            digit_run(s) == k,
        decreases e - i,
    {
        let d = digit_value_of(v[i]);
        let nv: u128 = (val as u128) * 10 + (d as u128);
        if nv > (bound as u128) {
            proof {
                let prefix = v@.subrange(pos as int, i as int + 1);
                assert(prefix =~= v@.subrange(pos as int, i as int).push(v@[i as int]));
                assert(prefix.drop_last() =~= v@.subrange(pos as int, i as int));
                assert(val_of(prefix) == val * 10 + digit_val(v@[i as int]));
                lemma_val_of_prefix(run, i as int + 1 - pos);
                assert(run.take(i as int + 1 - pos) =~= prefix);
                assert(val_of(run) >= val_of(prefix));
                assert(val_of(prefix) == val * 10 + d);
                assert(s.take(k) =~= run);
                assert(val_of(s.take(k)) > bound);
            }
            return None;
        }
        val = nv as u64;
        proof {
            let prefix = v@.subrange(pos as int, i as int + 1);
            assert(prefix =~= v@.subrange(pos as int, i as int).push(v@[i as int]));
            assert(prefix.drop_last() =~= v@.subrange(pos as int, i as int));
            assert(val_of(prefix) == val_of(v@.subrange(pos as int, i as int)) * 10 + digit_val(
                v@[i as int],
            ));
        }
        i += 1;
    }
    proof {
        assert(v@.subrange(pos as int, e as int) =~= s.take(k));
        assert(val == val_of(s.take(k)));
        assert(s[k] == ' ');
        assert(s.skip(k + 1) =~= v@.skip(e as int + 1));
    }
    Some((val, e + 1))
}

/// Reads one raw character and its closing space.
fn read_char(v: &Vec<char>, pos: usize) -> (r: Option<(char, usize)>)
    requires
        pos <= v@.len(),
    ensures
        r matches Some(p) ==> parse_char(v@.skip(pos as int)) == Option::Some(
            (p.0, v@.skip(p.1 as int)),
        ) && pos < p.1 <= v@.len(),
        r is None ==> parse_char(v@.skip(pos as int)) is None,
{
    let ghost s = v@.skip(pos as int);
    if v.len() - pos >= 2 && v[pos + 1] == ' ' {
        proof {
            assert(s[0] == v@[pos as int]);
            assert(s[1] == v@[pos as int + 1]);
            assert(s.skip(2) =~= v@.skip(pos as int + 2));
        }
        Some((v[pos], pos + 2))
    } else {
        proof {
            if s.len() >= 2 {
                assert(s[1] == v@[pos as int + 1]);
            }
        }
        None
    }
}

/// Reads `n` raw characters of title into a fresh string.
fn read_title(v: &Vec<char>, pos: usize, n: usize) -> (r: Option<(String, usize)>)
    requires
        pos <= v@.len(),
    ensures
        r matches Some(p) ==> ({
            &&& parse_title(v@.skip(pos as int), n as nat) == Option::Some(
                (p.0@, v@.skip(p.1 as int)),
            )
            &&& pos <= p.1 <= v@.len()
        }),
        r is None ==> parse_title(v@.skip(pos as int), n as nat) is None,
{
    let ghost s = v@.skip(pos as int);
    if v.len() - pos < n {
        return None;
    }
    let vlen = v.len();
    let mut out = String::new();
    let mut i: usize = 0;
    while i < n
        invariant
            0 <= i <= n,
            pos + n <= vlen,
            vlen == v@.len(),
            out@ == v@.subrange(pos as int, pos as int + i as int),
        decreases n - i,
    {
        out.push(v[pos + i]);
        proof {
            assert(v@.subrange(pos as int, pos as int + i as int + 1) =~= v@.subrange(
                pos as int,
                pos as int + i as int,
            ).push(v@[pos as int + i as int]));
        }
        i += 1;
    }
    proof {
        assert(s.take(n as int) =~= v@.subrange(pos as int, pos as int + n as int));
        assert(s.skip(n as int) =~= v@.skip(pos as int + n as int));
    }
    Some((out, pos + n))
}

/// Reads the deadline.
fn read_time(v: &Vec<char>, pos: usize) -> (r: Option<(Option<i64>, usize)>)
    requires
        pos <= v@.len(),
    ensures
        r matches Some(p) ==> parse_time(v@.skip(pos as int)) == Option::Some(
            (p.0, v@.skip(p.1 as int)),
        ) && pos < p.1 <= v@.len(),
        r is None ==> parse_time(v@.skip(pos as int)) is None,
{
    match read_num(v, pos, 1) {
        None => None,
        Some((flag, p2)) => {
            if flag == 0 {
                Some((None, p2))
            } else {
                match read_num(v, p2, i64::MAX as u64) {
                    None => None,
                    Some((t, p3)) => Some((Some(t as i64), p3)),
                }
            }
        },
    }
}

/// Reads `n` participant entries.
fn read_users(v: &Vec<char>, pos: usize, n: usize) -> (r: Option<(Vec<u64>, usize)>)
    requires
        pos <= v@.len(),
    ensures
        r matches Some(p) ==> ({
            &&& parse_users(v@.skip(pos as int), n as nat) == Option::Some(
                (p.0@, v@.skip(p.1 as int)),
            )
            &&& pos <= p.1 <= v@.len()
        }),
        r is None ==> parse_users(v@.skip(pos as int), n as nat) is None,
{
    let mut acc: Vec<u64> = Vec::new();
    let mut cur = pos;
    let mut done: usize = 0;
    while done < n
        invariant
            done <= n,
            pos <= cur <= v@.len(),
            parse_users(v@.skip(pos as int), n as nat) == (match parse_users(
                v@.skip(cur as int),
                (n - done) as nat,
            ) {
                Option::None => Option::None::<(Seq<u64>, Seq<char>)>,
                Option::Some((us, rest)) => Option::Some((acc@ + us, rest)),
            }),
        decreases n - done,
    {
        match read_num(v, cur, u64::MAX) {
            None => {
                return None;
            },
            Some((u, p2)) => {
                let ghost m = (n - done) as nat;
                let ghost tail = parse_users(v@.skip(p2 as int), (m - 1) as nat);
                proof {
                    assert(parse_users(v@.skip(cur as int), m) == (match tail {
                        Option::None => Option::None::<(Seq<u64>, Seq<char>)>,
                        Option::Some((us, rest)) => Option::Some((seq![u] + us, rest)),
                    }));
                    if tail is Some {
                        let us = tail->Some_0.0;
                        assert(acc@ + (seq![u] + us) =~= acc@.push(u) + us);
                    }
                }
                acc.push(u);
                cur = p2;
                done += 1;
            },
        }
    }
    proof {
        assert(acc@ + Seq::<u64>::empty() =~= acc@);
    }
    Some((acc, cur))
}

/// Reads one drawing record.
#[verifier::rlimit(60)]
fn read_record(v: &Vec<char>, pos: usize) -> (r: Option<(crate::giveaway::Giveaway, usize)>)
    requires
        pos <= v@.len(),
    ensures
        r matches Some(p) ==> ({
            &&& parse_record(v@.skip(pos as int)) == Option::Some((p.0@, v@.skip(p.1 as int)))
            &&& pos <= p.1 <= v@.len()
        }),
        r is None ==> parse_record(v@.skip(pos as int)) is None,
{
    let (id, p1) = match read_num(v, pos, u32::MAX as u64) {
        None => { return None },
        Some(x) => x,
    };
    let (message, p2) = match read_num(v, p1, u64::MAX) {
        None => { return None },
        Some(x) => x,
    };
    let (channel, p3) = match read_num(v, p2, u64::MAX) {
        None => { return None },
        Some(x) => x,
    };
    let (guild, p4) = match read_num(v, p3, u64::MAX) {
        None => { return None },
        Some(x) => x,
    };
    let (emoji, p5) = match read_char(v, p4) {
        None => { return None },
        Some(x) => x,
    };
    let (time, p6) = match read_time(v, p5) {
        None => { return None },
        Some(x) => x,
    };
    let (wc, p7) = match read_num(v, p6, u16::MAX as u64) {
        None => { return None },
        Some(x) => x,
    };
    let (nusers, p8) = match read_num(v, p7, usize::MAX as u64) {
        None => { return None },
        Some(x) => x,
    };
    let (users, p9) = match read_users(v, p8, nusers as usize) {
        None => { return None },
        Some(x) => x,
    };
    let (tlen, p10) = match read_num(v, p9, usize::MAX as u64) {
        None => { return None },
        Some(x) => x,
    };
    let (title, p11) = match read_title(v, p10, tlen as usize) {
        None => { return None },
        Some(x) => x,
    };
    let g = crate::giveaway::Giveaway {
        title,
        message,
        channel,
        guild,
        emoji,
        time,
        users,
        winner_count: wc as u16,
        id: crate::giveaway::GiveawayId(id as u32),
    };
    Some((g, p11))
}

/// Reads `n` records.
fn read_records(v: &Vec<char>, pos: usize, n: usize) -> (r: Option<(Vec<crate::giveaway::Giveaway>, usize)>)
    requires
        pos <= v@.len(),
    ensures
        r matches Some(p) ==> ({
            &&& parse_records(v@.skip(pos as int), n as nat) == Option::Some(
                (crate::store::models(p.0@), v@.skip(p.1 as int)),
            )
            &&& pos <= p.1 <= v@.len()
        }),
        r is None ==> parse_records(v@.skip(pos as int), n as nat) is None,
{
    let mut acc: Vec<crate::giveaway::Giveaway> = Vec::new();
    let mut cur = pos;
    let mut done: usize = 0;
    while done < n
        invariant
            done <= n,
            pos <= cur <= v@.len(),
            parse_records(v@.skip(pos as int), n as nat) == (match parse_records(
                v@.skip(cur as int),
                (n - done) as nat,
            ) {
                Option::None => Option::None::<(Seq<GiveawayModel>, Seq<char>)>,
                Option::Some((gs, rest)) => Option::Some((crate::store::models(acc@) + gs, rest)),
            }),
        decreases n - done,
    {
        match read_record(v, cur) {
            None => {
                return None;
            },
            Some((g, p2)) => {
                let ghost m = (n - done) as nat;
                let ghost tail = parse_records(v@.skip(p2 as int), (m - 1) as nat);
                proof {
                    assert(parse_records(v@.skip(cur as int), m) == (match tail {
                        Option::None => Option::None::<(Seq<GiveawayModel>, Seq<char>)>,
                        Option::Some((gs, rest)) => Option::Some((seq![g@] + gs, rest)),
                    }));
                    if tail is Some {
                        let gs = tail->Some_0.0;
                        assert(crate::store::models(acc@.push(g)) =~= crate::store::models(acc@)
                            .push(g@));
                        assert(crate::store::models(acc@) + (seq![g@] + gs) =~= crate::store::models(
                        acc@,
                        ).push(g@) + gs);
                    }
                }
                acc.push(g);
                cur = p2;
                done += 1;
            },
        }
    }
    proof {
        assert(crate::store::models(acc@) + Seq::<GiveawayModel>::empty() =~= crate::store::models(
        acc@,
        ));
    }
    Some((acc, cur))
}

impl crate::store::InnerState {
    /// Checks the store invariant, as decoding does before accepting a
    /// snapshot; callers outside the library can use it to test
    /// `encode`'s precondition.
    pub fn check_wf(&self) -> (b: bool)
        ensures
            b == self.wf(),
    {
        let n = self.giveaways.len();
        let mut i: usize = 0;
        while i < n
            invariant
                i <= n == self@.len(),
                forall|a: int| 0 <= a < i ==> (#[trigger] self@[a]).wf(),
                forall|a: int, b: int| 0 <= a < b < self@.len() && a < i ==> self@[a].id != self@[b].id,
            decreases n - i,
        {
            let g = &self.giveaways[i];
            if g.id.0 == 0 {
                return false;
            }
            if g.title.as_str().is_empty() {
                return false;
            }
            if g.winner_count == 0 {
                return false;
            }
            if let Some(t) = g.time {
                if t < 0 {
                    return false;
                }
                if t % 60 != 0 {
                    return false;
                }
            }
            assert(self@[i as int].wf());
            let mut j = i + 1;
            while j < n
                invariant
                    i < j <= n == self@.len(),
                    forall|b: int| i < b < j ==> self@[i as int].id != (#[trigger] self@[b]).id,
                decreases n - j,
            {
                if self.giveaways[i].id.0 == self.giveaways[j].id.0 {
                    assert(self@[i as int].id == self@[j as int].id);
                    assert(!crate::store::distinct_ids(self@));
                    return false;
                }
                j += 1;
            }
            i += 1;
        }
        true
    }

    /// Decodes a document back into a store; `None` exactly when the
    /// document is not the canonical encoding of a well-formed store.
    pub fn decode(v: &Vec<char>) -> (r: Option<crate::store::InnerState>)
        ensures
            r matches Some(st) ==> spec_decode(v@) == Option::Some(st@) && st.wf(),
            r is None ==> spec_decode(v@) is None,
    {
        proof {
            assert(v@.skip(0) =~= v@);
        }
        let (cnt, p1) = match read_num(v, 0, usize::MAX as u64) {
            None => { return None },
            Some(x) => x,
        };
        let (gs, p2) = match read_records(v, p1, cnt as usize) {
            None => { return None },
            Some(x) => x,
        };
        if p2 != v.len() {
            proof {
                assert(v@.skip(p2 as int).len() > 0);
            }
            return None;
        }
        let st = crate::store::InnerState { giveaways: gs };
        proof {
            assert(v@.skip(p2 as int).len() == 0);
        }
        if st.check_wf() {
            Some(st)
        } else {
            None
        }
    }
}


// ---------------------------------------------------------------------
// Round trip: decoding an encoding gives the store back.
// ---------------------------------------------------------------------

/// Reading the one-character token of `e` back.
pub proof fn lemma_parse_char_enc(e: char, rest: Seq<char>)
    ensures
        parse_char(seq![e, ' '] + rest) == Option::Some((e, rest)),
{
    let s = seq![e, ' '] + rest;
    assert(s[0] == e);
    assert(s[1] == ' ');
    assert(s.skip(2) =~= rest);
}

/// Reading an encoded deadline back.
pub proof fn lemma_parse_time_enc(time: Option<i64>, rest: Seq<char>)
    requires
        time matches Some(t) ==> t >= 0,
    ensures
        parse_time(enc_time(time) + rest) == Option::Some((time, rest)),
{
    match time {
        Option::None => {
            assert(enc_time(time) + rest =~= numtok(0) + rest);
            lemma_parse_numtok(0, 1, rest);
        },
        Option::Some(t) => {
            assert(enc_time(time) + rest =~= numtok(1) + (numtok(t as nat) + rest));
            lemma_parse_numtok(1, 1, numtok(t as nat) + rest);
            lemma_parse_numtok(t as nat, i64::MAX as int, rest);
        },
    }
}

/// Reading an encoded participant row back.
pub proof fn lemma_parse_users_enc(users: Seq<u64>, rest: Seq<char>)
    ensures
        parse_users(enc_users(users) + rest, users.len()) == Option::Some((users, rest)),
    decreases users.len(),
{
    if users.len() == 0 {
        assert(enc_users(users) + rest =~= rest);
        assert(Seq::<u64>::empty() =~= users);
    } else {
        let u0 = users[0];
        let tailu = users.drop_first();
        assert(enc_users(users) + rest =~= numtok(u0 as nat) + (enc_users(tailu) + rest));
        lemma_parse_numtok(u0 as nat, u64::MAX as int, enc_users(tailu) + rest);
        lemma_parse_users_enc(tailu, rest);
        assert(seq![u0] + tailu =~= users);
    }
}

/// Reading an encoded title back.
pub proof fn lemma_parse_title_enc(title: Seq<char>, rest: Seq<char>)
    ensures
        parse_title(title + rest, title.len()) == Option::Some((title, rest)),
{
    let s = title + rest;
    assert(s.take(title.len() as int) =~= title);
    assert(s.skip(title.len() as int) =~= rest);
}

/// Reading one encoded record back gives the record.
#[verifier::rlimit(100)]
pub proof fn lemma_parse_record_enc(g: GiveawayModel, rest: Seq<char>)
    requires
        g.wf(),
        g.users.len() <= usize::MAX,
        g.title.len() <= usize::MAX,
    ensures
        parse_record(enc_record(g) + rest) == Option::Some((g, rest)),
{
    let pa = numtok(g.id as nat);
    let pb = numtok(g.message as nat);
    let pc = numtok(g.channel as nat);
    let pd = numtok(g.guild as nat);
    let pe = seq![g.emoji, ' '];
    let pf = enc_time(g.time);
    let pg = numtok(g.winner_count as nat);
    let ph = numtok(g.users.len());
    let pi = enc_users(g.users);
    let pj = numtok(g.title.len());
    let pk = g.title;
    let s11 = rest;
    let s10 = pk + s11;
    let s9 = pj + s10;
    let s8 = pi + s9;
    let s7 = ph + s8;
    let s6 = pg + s7;
    let s5 = pf + s6;
    let s4 = pe + s5;
    let s3 = pd + s4;
    let s2 = pc + s3;
    let s1 = pb + s2;
    let s0 = pa + s1;
    let t2 = pa + pb;
    let t3 = t2 + pc;
    let t4 = t3 + pd;
    let t5 = t4 + pe;
    let t6 = t5 + pf;
    let t7 = t6 + pg;
    let t8 = t7 + ph;
    let t9 = t8 + pi;
    let t10 = t9 + pj;
    let t11 = t10 + pk;
    assert(s0 =~= t2 + s2);
    assert(t2 + s2 =~= t3 + s3);
    assert(t3 + s3 =~= t4 + s4);
    assert(t4 + s4 =~= t5 + s5);
    assert(t5 + s5 =~= t6 + s6);
    assert(t6 + s6 =~= t7 + s7);
    assert(t7 + s7 =~= t8 + s8);
    assert(t8 + s8 =~= t9 + s9);
    assert(t9 + s9 =~= t10 + s10);
    assert(t10 + s10 =~= t11 + s11);
    assert(t11 == enc_record(g));
    assert(enc_record(g) + rest == s0);
    lemma_parse_numtok(g.id as nat, u32::MAX as int, s1);
    assert(parse_num(s0, u32::MAX as int) == Option::Some((g.id as int, s1)));
    lemma_parse_numtok(g.message as nat, u64::MAX as int, s2);
    assert(parse_num(s1, u64::MAX as int) == Option::Some((g.message as int, s2)));
    lemma_parse_numtok(g.channel as nat, u64::MAX as int, s3);
    assert(parse_num(s2, u64::MAX as int) == Option::Some((g.channel as int, s3)));
    lemma_parse_numtok(g.guild as nat, u64::MAX as int, s4);
    assert(parse_num(s3, u64::MAX as int) == Option::Some((g.guild as int, s4)));
    lemma_parse_char_enc(g.emoji, s5);
    assert(parse_char(s4) == Option::Some((g.emoji, s5)));
    lemma_parse_time_enc(g.time, s6);
    assert(parse_time(s5) == Option::Some((g.time, s6)));
    lemma_parse_numtok(g.winner_count as nat, u16::MAX as int, s7);
    assert(parse_num(s6, u16::MAX as int) == Option::Some((g.winner_count as int, s7)));
    lemma_parse_numtok(g.users.len(), usize::MAX as int, s8);
    assert(parse_num(s7, usize::MAX as int) == Option::Some((g.users.len() as int, s8)));
    lemma_parse_users_enc(g.users, s9);
    assert(parse_users(s8, g.users.len()) == Option::Some((g.users, s9)));
    lemma_parse_numtok(g.title.len(), usize::MAX as int, s10);
    assert(parse_num(s9, usize::MAX as int) == Option::Some((g.title.len() as int, s10)));
    lemma_parse_title_enc(g.title, s11);
    assert(parse_title(s10, g.title.len()) == Option::Some((g.title, s11)));
    let m = parse_record(s0)->Some_0.0;
    assert(parse_record(s0) is Some);
    assert(m.id == g.id && m.title == g.title && m.message == g.message && m.channel == g.channel
        && m.guild == g.guild && m.emoji == g.emoji && m.time == g.time && m.users == g.users
        && m.winner_count == g.winner_count);
    assert(m == g);
}

/// Reading all encoded records back gives them all.
pub proof fn lemma_parse_records_enc(s: Seq<GiveawayModel>, rest: Seq<char>)
    requires
        all_wf(s),
        forall|i: int|
            0 <= i < s.len() ==> (#[trigger] s[i]).users.len() <= usize::MAX && s[i].title.len()
                <= usize::MAX,
    ensures
        parse_records(enc_records(s) + rest, s.len()) == Option::Some((s, rest)),
    decreases s.len(),
{
    if s.len() == 0 {
        assert(enc_records(s) + rest =~= rest);
        assert(Seq::<GiveawayModel>::empty() =~= s);
    } else {
        let g0 = s[0];
        let tail = s.drop_first();
        assert(enc_records(s) + rest =~= enc_record(g0) + (enc_records(tail) + rest));
        assert(g0.wf());
        lemma_parse_record_enc(g0, enc_records(tail) + rest);
        assert(forall|i: int|
            0 <= i < tail.len() ==> (#[trigger] tail[i]).users.len() <= usize::MAX
                && tail[i].title.len() <= usize::MAX);
        lemma_parse_records_enc(tail, rest);
        assert(seq![g0] + tail =~= s);
    }
}

/// The persistence round trip: the encoding of any well-formed store
/// decodes back to exactly that store — the snapshot written after a
/// mutation restores, on startup, the very active set it was taken from.
pub proof fn lemma_decode_encode(s: Seq<GiveawayModel>)
    requires
        all_wf(s),
        distinct_ids(s),
        s.len() <= usize::MAX,
        forall|i: int|
            0 <= i < s.len() ==> (#[trigger] s[i]).users.len() <= usize::MAX && s[i].title.len()
                <= usize::MAX,
    ensures
        spec_decode(spec_encode(s)) == Option::Some(s),
{
    lemma_parse_numtok(s.len(), usize::MAX as int, enc_records(s));
    lemma_parse_records_enc(s, Seq::<char>::empty());
    assert(enc_records(s) + Seq::<char>::empty() =~= enc_records(s));
}

} // verus!
