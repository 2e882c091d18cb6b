//! Account and request validation for the multiplayer server: usernames,
//! passwords, ruleset names and the seats of a new game.

use vstd::prelude::*;
use vstd::std_specs::iter::IteratorSpec;
use crate::model::{push_char, Ruleset, Side};

verus! {

/// Unicode's White_Space property, which `char::is_whitespace` reports:
/// tab through carriage return, space, next line, no-break space, ogham
/// space mark, en quad through hair space, line and paragraph separators,
/// narrow no-break space, medium mathematical space and ideographic space.
pub open spec fn white_space(c: char) -> bool {
    let n = c as u32;
    ||| 0x9 <= n <= 0xd
    ||| n == 0x20
    ||| n == 0x85
    ||| n == 0xa0
    ||| n == 0x1680
    ||| 0x2000 <= n <= 0x200a
    ||| n == 0x2028
    ||| n == 0x2029
    ||| n == 0x202f
    ||| n == 0x205f
    ||| n == 0x3000
}

/// Whether `c` has the White_Space property (`char::is_whitespace`).
#[verifier::external_body]
fn is_white_space(c: char) -> (r: bool)
    ensures
        r == white_space(c),
{
    c.is_whitespace()
}

/// Why a request was refused.
#[derive(Clone, Copy, Debug, PartialEq, Eq, Structural)]
pub enum AccountError {
    InvalidUsername,
    InvalidPassword,
    UnknownRuleset,
}

pub open spec fn account_error_text(e: AccountError) -> Seq<char> {
    match e {
        AccountError::InvalidUsername => "username must be 3-24 letters, numbers, hyphens, or underscores"@,
        AccountError::InvalidPassword => "password must be 8-128 characters"@,
        AccountError::UnknownRuleset => "unknown ruleset"@,
    }
}

impl AccountError {
    /// The message shown to the client.
    pub fn message(self) -> (r: &'static str)
        ensures
            r@ == account_error_text(self),
    {
        match self {
            AccountError::InvalidUsername => "username must be 3-24 letters, numbers, hyphens, or underscores",
            AccountError::InvalidPassword => "password must be 8-128 characters",
            AccountError::UnknownRuleset => "unknown ruleset",
        }
    }
}

/// `s` with leading White_Space characters removed.
pub open spec fn trim_start(s: Seq<char>) -> Seq<char>
    decreases s.len(),
{
    if s.len() > 0 && white_space(s[0]) {
        trim_start(s.drop_first())
    } else {
        s
    }
}

/// `s` with trailing White_Space characters removed.
pub open spec fn trim_end(s: Seq<char>) -> Seq<char>
    decreases s.len(),
{
    if s.len() > 0 && white_space(s.last()) {
        trim_end(s.drop_last())
    } else {
        s
    }
}

/// `s` with leading and trailing White_Space characters removed.
pub open spec fn trimmed(s: Seq<char>) -> Seq<char> {
    trim_end(trim_start(s))
}

/// ASCII upper-case letters mapped to lower case; every other character
/// unchanged.
pub open spec fn ascii_lower(c: char) -> char {
    if 'A' <= c <= 'Z' {
        ((c as u32) + 32) as char
    } else {
        c
    }
}

/// An ASCII letter or digit, a hyphen or an underscore.
pub open spec fn username_char(c: char) -> bool {
    ||| 'a' <= c <= 'z'
    ||| 'A' <= c <= 'Z'
    ||| '0' <= c <= '9'
    ||| c == '-'
    ||| c == '_'
}

/// The canonical form of a requested username: trimmed and lower-cased.
pub open spec fn canonical_username(value: Seq<char>) -> Seq<char> {
    trimmed(value).map_values(|c: char| ascii_lower(c))
}

/// A canonical username of 3 to 24 allowed characters.
pub open spec fn acceptable_username(name: Seq<char>) -> bool {
    &&& 3 <= name.len() <= 24
    &&& forall|i: int| 0 <= i < name.len() ==> username_char(#[trigger] name[i])
}

/// The characters of a string slice.
fn chars_of(text: &str) -> (r: Vec<char>)
    ensures
        r@ == text@,
{
    broadcast use vstd::string::group_string_axioms;

    let mut out: Vec<char> = Vec::new();
    let mut it = text.chars();
    assert(it.remaining() == text@);
    loop
        invariant
            text@ == out@ + it.remaining(),
            it.obeys_prophetic_iter_laws(),
            it.decrease() is Some,
        decreases it.decrease()->0,
    {
        let ghost before = it.remaining();
        match it.next() {
            Some(c) => {
                out.push(c);
                assert(text@ =~= out@ + it.remaining());
            },
            None => {
                assert(out@ =~= text@);
                return out;
            },
        }
    }
}

/// Lemma: the trimmed text is a slice of the input between the first and
/// after the last character without the White_Space property.
proof fn lemma_trim_start_skip(s: Seq<char>, k: int)
    requires
        0 <= k <= s.len(),
        forall|i: int| 0 <= i < k ==> white_space(#[trigger] s[i]),
        k == s.len() || !white_space(s[k]),
    ensures
        trim_start(s) == s.subrange(k, s.len() as int),
    decreases s.len(),
{
    if k > 0 {
        assert(white_space(s[0]));
        let t = s.drop_first();
        assert forall|i: int| 0 <= i < k - 1 implies white_space(#[trigger] t[i]) by {
            assert(t[i] == s[i + 1]);
        }
        if k < s.len() {
            assert(t[k - 1] == s[k]);
        }
        lemma_trim_start_skip(t, k - 1);
        assert(t.subrange(k - 1, t.len() as int) =~= s.subrange(k, s.len() as int));
    } else {
        assert(s.subrange(0, s.len() as int) =~= s);
    }
}

proof fn lemma_trim_end_cut(s: Seq<char>, e: int)
    requires
        0 <= e <= s.len(),
        forall|i: int| e <= i < s.len() ==> white_space(#[trigger] s[i]),
        e == 0 || !white_space(s[e - 1]),
    ensures
        trim_end(s) == s.subrange(0, e),
    decreases s.len(),
{
    if e < s.len() {
        assert(white_space(s.last()));
        let t = s.drop_last();
        assert forall|i: int| e <= i < t.len() implies white_space(#[trigger] t[i]) by {
            assert(t[i] == s[i]);
        }
        if e > 0 {
            assert(t[e - 1] == s[e - 1]);
        }
        lemma_trim_end_cut(t, e);
        assert(t.subrange(0, e) =~= s.subrange(0, e));
    } else {
        assert(s.subrange(0, e) =~= s);
    }
}

/// The canonical username for a requested one: surrounding white space
/// removed and ASCII letters lower-cased; refused unless it has 3 to 24
/// characters, each an ASCII letter or digit, a hyphen or an underscore.
pub fn normalize_username(value: &str) -> (r: Result<String, AccountError>)
    ensures
        match r {
            Ok(name) => acceptable_username(canonical_username(value@)) && name@ == canonical_username(
                value@,
            ),
            Err(e) => e == AccountError::InvalidUsername && !acceptable_username(
                canonical_username(value@),
            ),
        },
{
    let chars = chars_of(value);
    let n = chars.len();
    let mut start: usize = 0;
    while start < n && is_white_space(chars[start])
        invariant
            start <= n,
            n == chars@.len(),
            forall|i: int| 0 <= i < start ==> white_space(#[trigger] chars@[i]),
        decreases n - start,
    {
        start = start + 1;
    }
    let mut end: usize = n;
    while end > start && is_white_space(chars[end - 1])
        invariant
            start <= end <= n,
            n == chars@.len(),
            forall|i: int| end <= i < n ==> white_space(#[trigger] chars@[i]),
        decreases end - start,
    {
        end = end - 1;
    }
    let ghost body = chars@.subrange(start as int, end as int);
    proof {
        lemma_trim_start_skip(chars@, start as int);
        let rest = chars@.subrange(start as int, n as int);
        assert forall|i: int| end - start <= i < rest.len() implies white_space(#[trigger] rest[i]) by {
            assert(rest[i] == chars@[start + i]);
        }
        if end > start {
            assert(rest[end - start - 1] == chars@[end - 1]);
        }
        lemma_trim_end_cut(rest, end - start);
        assert(rest.subrange(0, end - start) =~= body);
        assert(trimmed(value@) == body);
    }
    let ghost canon = canonical_username(value@);
    assert(canon.len() == end - start);
    if end - start < 3 || end - start > 24 {
        return Err(AccountError::InvalidUsername);
    }
    let mut name = String::new();
    let mut i: usize = start;
    while i < end
        invariant
            start <= i <= end,
            end <= n,
            n == chars@.len(),
            body == chars@.subrange(start as int, end as int),
            canon == body.map_values(|c: char| ascii_lower(c)),
            canon == canonical_username(value@),
            name@ == canon.subrange(0, i - start),
            forall|j: int| 0 <= j < i - start ==> username_char(#[trigger] canon[j]),
        decreases end - i,
    {
        let c = chars[i];
        assert(canon[i - start] == ascii_lower(c));
        let lower = if 'A' <= c && c <= 'Z' {
            ((c as u8) + 32) as char
        } else {
            c
        };
        assert(lower == ascii_lower(c)) by {
            if 'A' <= c && c <= 'Z' {
                assert((c as u8) as u32 == c as u32);
            }
        }
        let allowed = ('a' <= lower && lower <= 'z') || ('A' <= lower && lower <= 'Z') || ('0'
            <= lower && lower <= '9') || lower == '-' || lower == '_';
        if !allowed {
            assert(!username_char(canon[i - start]));
            return Err(AccountError::InvalidUsername);
        }
        push_char(&mut name, lower);
        assert(name@ =~= canon.subrange(0, i + 1 - start));
        i = i + 1;
    }
    assert(name@ =~= canon);
    Ok(name)
}

/// Accepts a password of 8 to 128 bytes.
pub fn validate_password(password: &str) -> (r: Result<(), AccountError>)
    ensures
        r == if 8 <= password.len() <= 128 {
            Ok::<(), AccountError>(())
        } else {
            Err(AccountError::InvalidPassword)
        },
{
    if password.len() < 8 || password.len() > 128 {
        return Err(AccountError::InvalidPassword);
    }
    Ok(())
}

/// Whether two strings hold the same characters.
fn same_text(a: &str, b: &str) -> (r: bool)
    ensures
        r == (a@ == b@),
{
    let x = chars_of(a);
    let y = chars_of(b);
    if x.len() != y.len() {
        return false;
    }
    let mut i: usize = 0;
    while i < x.len()
        invariant
            i <= x@.len(),
            x@.len() == y@.len(),
            x@ == a@,
            y@ == b@,
            forall|j: int| 0 <= j < i ==> x@[j] == y@[j],
        decreases x@.len() - i,
    {
        if x[i] != y[i] {
            return false;
        }
        i = i + 1;
    }
    assert(x@ =~= y@);
    true
}

/// The name a ruleset is stored and requested under.
pub open spec fn ruleset_text(ruleset: Ruleset) -> Seq<char> {
    if ruleset == Ruleset::Classic {
        "classic"@
    } else {
        "multiverse"@
    }
}

/// The ruleset a name stands for.
pub open spec fn parsed_ruleset(value: Seq<char>) -> Result<Ruleset, AccountError> {
    if value == "classic"@ {
        Ok(Ruleset::Classic)
    } else if value == "multiverse"@ {
        Ok(Ruleset::Multiverse)
    } else {
        Err(AccountError::UnknownRuleset)
    }
}

/// Every ruleset is read back from its stored name.
pub proof fn lemma_ruleset_names_round_trip(ruleset: Ruleset)
    ensures
        parsed_ruleset(ruleset_text(ruleset)) == Ok::<Ruleset, AccountError>(ruleset),
{
    reveal_strlit("classic");
    reveal_strlit("multiverse");
    assert("classic"@.len() == 7);
    assert("multiverse"@.len() == 10);
    assert("multiverse"@ != "classic"@);
}

pub fn ruleset_name(ruleset: Ruleset) -> (r: &'static str)
    ensures
        r@ == ruleset_text(ruleset),
{
    match ruleset {
        Ruleset::Classic => "classic",
        Ruleset::Multiverse => "multiverse",
    }
}

/// The ruleset named `classic` or `multiverse`.
pub fn parse_ruleset(value: &str) -> (r: Result<Ruleset, AccountError>)
    ensures
        r == parsed_ruleset(value@),
{
    if same_text(value, "classic") {
        Ok(Ruleset::Classic)
    } else if same_text(value, "multiverse") {
        Ok(Ruleset::Multiverse)
    } else {
        Err(AccountError::UnknownRuleset)
    }
}

/// The side the requesting player takes: `attacker` or `defender`.
pub fn parse_seat(value: &str) -> (r: Option<Side>)
    ensures
        r == if value@ == "attacker"@ {
            Some(Side::Attacker)
        } else if value@ == "defender"@ {
            Some(Side::Defender)
        } else {
            None::<Side>
        },
{
    if same_text(value, "attacker") {
        Some(Side::Attacker)
    } else if same_text(value, "defender") {
        Some(Side::Defender)
    } else {
        None
    }
}

/// The accounts seated on the two sides of a stored game.
#[derive(Clone, Copy, Debug, PartialEq, Eq, Structural)]
pub struct Seating {
    pub attacker: i64,
    pub defender: i64,
}

impl Seating {
    /// The account playing `side`.
    pub fn user_for(self, side: Side) -> (r: i64)
        ensures
            r == (if side == Side::Attacker {
                self.attacker
            } else {
                self.defender
            }),
    {
        match side {
            Side::Attacker => self.attacker,
            Side::Defender => self.defender,
        }
    }

    /// The side `user` plays, the attacking side first when the account
    /// sits on both.
    pub fn side_of(self, user: i64) -> (r: Option<Side>)
        ensures
            r == (if self.attacker == user {
                Some(Side::Attacker)
            } else if self.defender == user {
                Some(Side::Defender)
            } else {
                None::<Side>
            }),
    {
        if self.attacker == user {
            Some(Side::Attacker)
        } else if self.defender == user {
            Some(Side::Defender)
        } else {
            None
        }
    }
}

/// Why a player may not act in a stored game now.
#[derive(Clone, Copy, Debug, PartialEq, Eq, Structural)]
pub enum ActorRefusal {
    /// The game changed since the player last loaded it.
    Stale,
    /// The game is over.
    Finished,
    /// The other side is to move.
    NotYourTurn,
}

pub open spec fn refusal_text(r: ActorRefusal) -> Seq<char> {
    match r {
        ActorRefusal::Stale => "game changed; reload before moving"@,
        ActorRefusal::Finished => "the game is already finished"@,
        ActorRefusal::NotYourTurn => "it is not your turn"@,
    }
}

impl ActorRefusal {
    /// The message shown to the client.
    pub fn message(self) -> (r: &'static str)
        ensures
            r@ == refusal_text(self),
    {
        match self {
            ActorRefusal::Stale => "game changed; reload before moving",
            ActorRefusal::Finished => "the game is already finished",
            ActorRefusal::NotYourTurn => "it is not your turn",
        }
    }
}

/// Whether `user` may act now in a stored game at `stored_version` that
/// they loaded at `version`: the versions must agree, the game must be
/// active and undecided, and `user` must hold the side to move; the checks
/// are made in that order.
pub fn check_actor(
    stored_version: i64,
    version: i64,
    active: bool,
    decided: bool,
    turn: Side,
    seating: Seating,
    user: i64,
) -> (r: Result<(), ActorRefusal>)
    ensures
        r == if stored_version != version {
            Err(ActorRefusal::Stale)
        } else if !active || decided {
            Err(ActorRefusal::Finished)
        } else if (if turn == Side::Attacker {
            seating.attacker
        } else {
            seating.defender
        }) != user {
            Err(ActorRefusal::NotYourTurn)
        } else {
            Ok(())
        },
{
    if stored_version != version {
        return Err(ActorRefusal::Stale);
    }
    if !active || decided {
        return Err(ActorRefusal::Finished);
    }
    if seating.user_for(turn) != user {
        return Err(ActorRefusal::NotYourTurn);
    }
    Ok(())
}

} // verus!
