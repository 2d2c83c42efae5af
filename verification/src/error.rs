//! Errors shared by all matching backends.
use vstd::prelude::*;

verus! {

/// Errors that can occur during pattern matching.
#[derive(Debug)]
#[non_exhaustive]
pub enum Error {
    /// Input data is larger than the backend supports for one scan.
    InputTooLarge {
        /// Input size in bytes.
        bytes: usize,
        /// Maximum supported bytes.
        max_bytes: usize,
    },
    /// Match buffer overflow: too many matches for the configured buffer.
    MatchBufferOverflow {
        /// Actual number of matches found.
        count: usize,
        /// Maximum matches supported by the buffer.
        max: usize,
    },
    /// A pattern set is empty (no patterns to match against).
    EmptyPatternSet,
    /// A specific pattern is empty (zero bytes).
    EmptyPattern {
        /// Index of the empty pattern.
        index: usize,
    },
    /// Pattern compilation failed in a backend.
    PatternCompilationFailed {
        /// The underlying error description.
        reason: String,
    },
    /// Allocation failed because a buffer could not grow.
    OutOfMemory {
        /// Description of the allocation failure.
        message: String,
    },
    /// A backend-specific error not covered by the universal variants,
    /// carried as its message.
    Backend(String),
}

/// The character for a decimal digit `d < 10`.
pub open spec fn digit_char(d: nat) -> char {
    (48 + d) as char
}

/// The decimal numeral of `n`, without leading zeros.
pub open spec fn decimal(n: nat) -> Seq<char>
    decreases n,
{
    if n < 10 {
        seq![digit_char(n)]
    } else {
        decimal(n / 10).push(digit_char(n % 10))
    }
}

impl Error {
    /// The message shown to users for this error. Every message but a
    /// backend's own ends with a `fix:` hint.
    pub open spec fn message(&self) -> Seq<char> {
        match self {
            Error::InputTooLarge { bytes, max_bytes } => "scan input is too large ("@ + decimal(
                *bytes as nat,
            ) + " bytes, max "@ + decimal(*max_bytes as nat)
                + "). fix: shard the input or use a streaming scanner"@,
            Error::MatchBufferOverflow { count, max } => "too many matches ("@ + decimal(
                *count as nat,
            ) + " exceeds "@ + decimal(*max as nat)
                + "). fix: reduce pattern count, split input, or increase buffer size"@,
            Error::EmptyPatternSet => "pattern set is empty. fix: add at least one pattern before scanning"@,
            Error::EmptyPattern { index } => "pattern "@ + decimal(*index as nat)
                + " is empty. fix: provide a non-empty byte sequence"@,
            Error::PatternCompilationFailed { reason } => "pattern compilation failed: "@ + reason@
                + ". fix: check pattern syntax and backend logs"@,
            Error::OutOfMemory { message } => "allocation failed: "@ + message@
                + ". fix: reduce match count or increase available memory"@,
            Error::Backend(message) => message@,
        }
    }

    /// The message shown to users for this error.
    pub fn to_string(&self) -> (s: String)
        ensures
            s@ == self.message(),
    {
        let mut s = String::new();
        match self {
            Error::InputTooLarge { bytes, max_bytes } => {
                s.append("scan input is too large (");
                s.append(decimal_text(*bytes).as_str());
                s.append(" bytes, max ");
                s.append(decimal_text(*max_bytes).as_str());
                s.append("). fix: shard the input or use a streaming scanner");
            },
            Error::MatchBufferOverflow { count, max } => {
                s.append("too many matches (");
                s.append(decimal_text(*count).as_str());
                s.append(" exceeds ");
                s.append(decimal_text(*max).as_str());
                s.append("). fix: reduce pattern count, split input, or increase buffer size");
            },
            Error::EmptyPatternSet => {
                s.append("pattern set is empty. fix: add at least one pattern before scanning");
            },
            Error::EmptyPattern { index } => {
                s.append("pattern ");
                s.append(decimal_text(*index).as_str());
                s.append(" is empty. fix: provide a non-empty byte sequence");
            },
            Error::PatternCompilationFailed { reason } => {
                s.append("pattern compilation failed: ");
                s.append(reason.as_str());
                s.append(". fix: check pattern syntax and backend logs");
            },
            Error::OutOfMemory { message } => {
                s.append("allocation failed: ");
                s.append(message.as_str());
                s.append(". fix: reduce match count or increase available memory");
            },
            Error::Backend(message) => {
                s.append(message.as_str());
            },
        }
        assert(s@ =~= self.message());
        s
    }
}

/// The message carries the hint `fix:` somewhere in it.
pub open spec fn has_fix_hint(msg: Seq<char>) -> bool {
    exists|i: int| 0 <= i && i + 4 <= msg.len() && #[trigger] msg.subrange(i, i + 4) == "fix:"@
}

/// A hint inside the tail `c` of a message is a hint of the whole message.
proof fn lemma_hint_in_tail(p: Seq<char>, c: Seq<char>, k: int)
    requires
        0 <= k,
        k + 4 <= c.len(),
        c.subrange(k, k + 4) == "fix:"@,
    ensures
        has_fix_hint(p + c),
{
    let i = p.len() + k;
    assert((p + c).subrange(i, i + 4) =~= c.subrange(k, k + 4));
}

/// Every error message but a backend's own tells the user how to fix the
/// problem: it carries a `fix:` hint.
pub proof fn lemma_messages_carry_fix_hint(e: Error)
    requires
        !(e is Backend),
    ensures
        has_fix_hint(e.message()),
{
    reveal_strlit("fix:");
    match e {
        Error::InputTooLarge { bytes, max_bytes } => {
            let c = "). fix: shard the input or use a streaming scanner"@;
            reveal_strlit("). fix: shard the input or use a streaming scanner");
            assert(c.subrange(3, 7) =~= "fix:"@);
            lemma_hint_in_tail(
                "scan input is too large ("@ + decimal(bytes as nat) + " bytes, max "@ + decimal(
                    max_bytes as nat,
                ),
                c,
                3,
            );
        },
        Error::MatchBufferOverflow { count, max } => {
            let c = "). fix: reduce pattern count, split input, or increase buffer size"@;
            reveal_strlit("). fix: reduce pattern count, split input, or increase buffer size");
            assert(c.subrange(3, 7) =~= "fix:"@);
            lemma_hint_in_tail(
                "too many matches ("@ + decimal(count as nat) + " exceeds "@ + decimal(max as nat),
                c,
                3,
            );
        },
        Error::EmptyPatternSet => {
            let c = "pattern set is empty. fix: add at least one pattern before scanning"@;
            reveal_strlit("pattern set is empty. fix: add at least one pattern before scanning");
            assert(c.subrange(22, 26) =~= "fix:"@);
            lemma_hint_in_tail(Seq::<char>::empty(), c, 22);
            assert(Seq::<char>::empty() + c =~= c);
        },
        Error::EmptyPattern { index } => {
            let c = " is empty. fix: provide a non-empty byte sequence"@;
            reveal_strlit(" is empty. fix: provide a non-empty byte sequence");
            assert(c.subrange(11, 15) =~= "fix:"@);
            lemma_hint_in_tail("pattern "@ + decimal(index as nat), c, 11);
        },
        Error::PatternCompilationFailed { reason } => {
            let c = ". fix: check pattern syntax and backend logs"@;
            reveal_strlit(". fix: check pattern syntax and backend logs");
            assert(c.subrange(2, 6) =~= "fix:"@);
            lemma_hint_in_tail("pattern compilation failed: "@ + reason@, c, 2);
        },
        Error::OutOfMemory { message } => {
            let c = ". fix: reduce match count or increase available memory"@;
            reveal_strlit(". fix: reduce match count or increase available memory");
            assert(c.subrange(2, 6) =~= "fix:"@);
            lemma_hint_in_tail("allocation failed: "@ + message@, c, 2);
        },
        Error::Backend(_) => {},
    }
}

/// The decimal numeral of `n`.
pub fn decimal_text(n: usize) -> (s: String)
    ensures
        s@ == decimal(n as nat),
{
    let mut digits: Vec<char> = Vec::new();
    if n == 0 {
        digits.push('0');
        assert(digits@ =~= decimal(0));
    } else {
        let mut x: usize = n;
        while x > 0
            invariant
                decimal(n as nat) == (if x == 0 {
                    Seq::<char>::empty()
                } else {
                    decimal(x as nat)
                }) + digits@,
            decreases x,
        {
            let d: u8 = (x % 10) as u8;
            let c: char = (48u8 + d) as char;
            assert(c == digit_char((x % 10) as nat));
            let ghost before = digits@;
            digits.insert(0, c);
            assert(digits@ =~= seq![c] + before);
            if x >= 10 {
                assert(decimal(x as nat) == decimal((x / 10) as nat).push(c));
                assert(decimal((x / 10) as nat).push(c) + before =~= decimal((x / 10) as nat) + digits@);
            } else {
                assert(decimal(x as nat) == seq![c]);
                assert(seq![c] + before =~= Seq::<char>::empty() + digits@);
            }
            x = x / 10;
        }
        assert(decimal(n as nat) =~= digits@);
    }
    string_from_chars(&digits)
}

/// std's `String::from_iter` over characters: the string of exactly those
/// characters, in order.
#[verifier::external_body]
fn string_from_chars(chars: &Vec<char>) -> (s: String)
    ensures
        s@ == chars@,
{
    String::from_iter(chars.iter())
}

/// Result type alias using [`Error`].
pub type Result<T> = std::result::Result<T, Error>;

} // verus!
