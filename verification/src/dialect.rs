//! How a database spells parameter placeholders.
use vstd::prelude::*;

use crate::lexer::is_ascii_digit;
use crate::migrate::decimal_value;
use crate::text::push_char;

verus! {

/// The decimal digit `d`.
pub open spec fn digit(d: nat) -> char {
    (d + '0' as nat) as char
}

/// The decimal representation of `n`, as `Display` writes it.
pub open spec fn decimal(n: nat) -> Seq<char>
    decreases n,
{
    if n < 10 {
        seq![digit(n)]
    } else {
        decimal(n / 10).push(digit(n % 10))
    }
}

/// The decimal representation of `n` spells `n`: it is non-empty, made of
/// ASCII digits, starts with a non-zero digit unless `n` is zero, and its
/// digits read in base ten give back `n`.
pub proof fn lemma_decimal_spells(n: nat)
    ensures
        decimal(n).len() > 0,
        forall|k: int| 0 <= k < decimal(n).len() ==> is_ascii_digit(#[trigger] decimal(n)[k]),
        n > 0 ==> decimal(n)[0] != '0',
        decimal_value(decimal(n)) == n,
    decreases n,
{
    if n >= 10 {
        lemma_decimal_spells(n / 10);
        let d = decimal(n / 10);
        let t = d.push(digit(n % 10));
        assert(t.drop_last() =~= d);
        assert(t[0] == d[0]);
        assert forall|k: int| 0 <= k < t.len() implies is_ascii_digit(#[trigger] t[k]) by {
            if k < d.len() {
                assert(t[k] == d[k]);
            }
        }
        assert(decimal_value(t) == decimal_value(d) * 10 + n % 10);
        assert((n / 10) * 10 + n % 10 == n);
    } else {
        let t = seq![digit(n)];
        assert(t.drop_last() =~= Seq::<char>::empty());
        assert(decimal_value(Seq::<char>::empty()) == 0);
    }
}

/// A Postgres placeholder is `$` followed by its position, spelled in
/// decimal: reading the digits back gives the position.
pub proof fn lemma_postgres_placeholder_spells(index: nat)
    ensures
        Postgres::placeholder_spec(index)[0] == '$',
        Postgres::placeholder_spec(index).len() >= 2,
        forall|k: int|
            1 <= k < Postgres::placeholder_spec(index).len() ==> is_ascii_digit(
                #[trigger] Postgres::placeholder_spec(index)[k],
            ),
        index > 0 ==> Postgres::placeholder_spec(index)[1] != '0',
        decimal_value(Postgres::placeholder_spec(index).drop_first()) == index,
{
    lemma_decimal_spells(index);
    let p = Postgres::placeholder_spec(index);
    assert(p.drop_first() =~= decimal(index));
    assert forall|k: int| 1 <= k < p.len() implies is_ascii_digit(#[trigger] p[k]) by {
        assert(p[k] == decimal(index)[k - 1]);
    }
}

/// Appends the decimal representation of `n` to `out`.
pub fn push_decimal(n: usize, out: &mut String)
    ensures
        final(out)@ == old(out)@ + decimal(n as nat),
    decreases n,
{
    if n >= 10 {
        push_decimal(n / 10, out);
    }
    let d = (n % 10) as u8;
    let c = (48u8 + d) as char;
    assert(c == digit((n % 10) as nat));
    push_char(out, c);
}

/// How a database spells parameter placeholders, and how it takes the lock
/// that serialises migrations.
///
/// This is carried by the connection rather than read from a cargo feature,
/// so which database a query is built for is a property of the connection it
/// runs on. Both databases can be served by one binary.
pub trait Dialect {
    /// The placeholder for the parameter at the given 1-based position.
    spec fn placeholder_spec(index: nat) -> Seq<char>;

    /// Append the placeholder for a parameter at the given 1-based position.
    fn placeholder(index: usize, out: &mut String)
        ensures
            final(out)@ == old(out)@ + Self::placeholder_spec(index as nat),
    ;

    /// Every placeholder is spelled with at least one character.
    proof fn lemma_placeholder_nonempty(index: nat)
        ensures
            Self::placeholder_spec(index).len() > 0,
    ;

    /// Take the session lock that serialises migrations across processes.
    const LOCK: &'static str;

    /// Release [Dialect::LOCK].
    const UNLOCK: &'static str;
}

/// Positional `$1`, `$2`, ... placeholders.
pub struct Postgres;

impl Dialect for Postgres {
    open spec fn placeholder_spec(index: nat) -> Seq<char> {
        seq!['$'] + decimal(index)
    }

    fn placeholder(index: usize, out: &mut String) {
        let ghost start = out@;
        push_char(out, '$');
        push_decimal(index, out);
        assert(out@ =~= start + (seq!['$'] + decimal(index as nat)));
    }

    proof fn lemma_placeholder_nonempty(index: nat) {
    }

    // The key is arbitrary but has to be stable: it is the whole agreement
    // between two processes that they are waiting on the same thing.
    const LOCK: &'static str = "SELECT pg_advisory_lock(4359270142058781)";

    const UNLOCK: &'static str = "SELECT pg_advisory_unlock(4359270142058781)";
}

/// Positional `?` placeholders.
pub struct MySql;

impl Dialect for MySql {
    open spec fn placeholder_spec(index: nat) -> Seq<char> {
        seq!['?']
    }

    fn placeholder(index: usize, out: &mut String) {
        push_char(out, '?');
    }

    proof fn lemma_placeholder_nonempty(index: nat) {
    }

    // A negative timeout waits indefinitely, so the lock either is held or the
    // statement is still running.
    const LOCK: &'static str = "SELECT GET_LOCK('esql_migrations', -1)";

    const UNLOCK: &'static str = "SELECT RELEASE_LOCK('esql_migrations')";
}

} // verus!
