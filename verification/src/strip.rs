//! Comment stripping for header-like files.
//!
//! The scan is purely lexical, byte by byte: a `/* ... */` comment is
//! dropped whole (an unterminated one is dropped to end of input, a
//! deliberate lenient fallback), a `// ...` comment is dropped up to but
//! not past the end of its line, and every other byte passes through
//! unchanged. The scanner does not understand string or character
//! literals, so comment openers inside a literal are treated as comments;
//! that approximation is accepted and kept as-is.

use vstd::prelude::*;

verus! {

/// Scanner position: in plain code, inside a block comment, or inside a
/// line comment.
#[derive(Clone, Copy, Debug, PartialEq, Eq, Structural)]
pub enum LexState {
    Code,
    Block,
    Line,
}

/// What remains of `s` after stripping, starting in scanner state `st`.
pub open spec fn strip_state(s: Seq<u8>, st: LexState) -> Seq<u8>
    decreases s.len(),
{
    match st {
        LexState::Code => {
            if s.len() == 0 {
                Seq::empty()
            } else if s.len() >= 2 && s[0] == 47u8 && s[1] == 42u8 {
                strip_state(s.skip(2), LexState::Block)
            } else if s.len() >= 2 && s[0] == 47u8 && s[1] == 47u8 {
                strip_state(s.skip(2), LexState::Line)
            } else {
                seq![s[0]] + strip_state(s.skip(1), LexState::Code)
            }
        },
        LexState::Block => {
            if s.len() == 0 {
                Seq::empty()
            } else if s.len() >= 2 && s[0] == 42u8 && s[1] == 47u8 {
                strip_state(s.skip(2), LexState::Code)
            } else {
                strip_state(s.skip(1), LexState::Block)
            }
        },
        LexState::Line => {
            if s.len() == 0 {
                Seq::empty()
            } else if s[0] == 10u8 {
                seq![10u8] + strip_state(s.skip(1), LexState::Code)
            } else {
                strip_state(s.skip(1), LexState::Line)
            }
        },
    }
}

/// The comment-stripped form of a byte string.
pub open spec fn strip_spec(s: Seq<u8>) -> Seq<u8> {
    strip_state(s, LexState::Code)
}

/// Strips block and line comments from `s`.
pub fn strip_comments(s: &Vec<u8>) -> (r: Vec<u8>)
    ensures
        r@ == strip_spec(s@),
{
    let mut out: Vec<u8> = Vec::new();
    let mut st = LexState::Code;
    let mut i: usize = 0;
    proof {
        assert(s@.skip(0) =~= s@);
    }
    while i < s.len()
        invariant
            0 <= i <= s.len(),
            strip_spec(s@) == out@ + strip_state(s@.skip(i as int), st),
        decreases s.len() - i,
    {
        proof {
            assert(s@.skip(i as int)[0] == s@[i as int]);
            if i + 1 < s@.len() {
                assert(s@.skip(i as int)[1] == s@[i + 1]);
            }
            assert(s@.skip(i as int).skip(1) =~= s@.skip(i + 1));
            if i + 2 <= s@.len() {
                assert(s@.skip(i as int).skip(2) =~= s@.skip(i + 2));
            }
        }
        let c = s[i];
        match st {
            LexState::Code => {
                if c == 47u8 && i + 1 < s.len() && s[i + 1] == 42u8 {
                    st = LexState::Block;
                    i = i + 2;
                } else if c == 47u8 && i + 1 < s.len() && s[i + 1] == 47u8 {
                    st = LexState::Line;
                    i = i + 2;
                } else {
                    out.push(c);
                    i = i + 1;
                }
            },
            LexState::Block => {
                if c == 42u8 && i + 1 < s.len() && s[i + 1] == 47u8 {
                    st = LexState::Code;
                    i = i + 2;
                } else {
                    i = i + 1;
                }
            },
            LexState::Line => {
                if c == 10u8 {
                    out.push(c);
                    st = LexState::Code;
                }
                i = i + 1;
            },
        }
    }
    proof {
        assert(s@.skip(i as int).len() == 0);
        assert(strip_state(s@.skip(i as int), st) =~= Seq::<u8>::empty());
        assert(out@ =~= out@ + Seq::<u8>::empty());
    }
    out
}


/// The scanner state after reading `s`, starting in `st`.
pub open spec fn end_state(s: Seq<u8>, st: LexState) -> LexState
    decreases s.len(),
{
    match st {
        LexState::Code => {
            if s.len() == 0 {
                LexState::Code
            } else if s.len() >= 2 && s[0] == 47u8 && s[1] == 42u8 {
                end_state(s.skip(2), LexState::Block)
            } else if s.len() >= 2 && s[0] == 47u8 && s[1] == 47u8 {
                end_state(s.skip(2), LexState::Line)
            } else {
                end_state(s.skip(1), LexState::Code)
            }
        },
        LexState::Block => {
            if s.len() == 0 {
                LexState::Block
            } else if s.len() >= 2 && s[0] == 42u8 && s[1] == 47u8 {
                end_state(s.skip(2), LexState::Code)
            } else {
                end_state(s.skip(1), LexState::Block)
            }
        },
        LexState::Line => {
            if s.len() == 0 {
                LexState::Line
            } else if s[0] == 10u8 {
                end_state(s.skip(1), LexState::Code)
            } else {
                end_state(s.skip(1), LexState::Line)
            }
        },
    }
}

/// The scanner's two-byte window never reaches past the end of `s`: the
/// scan never ends on a lone `/` in code or a lone `*` in a block
/// comment, which text appended after `s` could merge with.
pub open spec fn boundary_safe(s: Seq<u8>, st: LexState) -> bool
    decreases s.len(),
{
    match st {
        LexState::Code => {
            if s.len() == 0 {
                true
            } else if s.len() == 1 {
                s[0] != 47u8
            } else if s[0] == 47u8 && s[1] == 42u8 {
                boundary_safe(s.skip(2), LexState::Block)
            } else if s[0] == 47u8 && s[1] == 47u8 {
                boundary_safe(s.skip(2), LexState::Line)
            } else {
                boundary_safe(s.skip(1), LexState::Code)
            }
        },
        LexState::Block => {
            if s.len() == 0 {
                true
            } else if s.len() == 1 {
                s[0] != 42u8
            } else if s[0] == 42u8 && s[1] == 47u8 {
                boundary_safe(s.skip(2), LexState::Code)
            } else {
                boundary_safe(s.skip(1), LexState::Block)
            }
        },
        LexState::Line => {
            if s.len() == 0 {
                true
            } else if s[0] == 10u8 {
                boundary_safe(s.skip(1), LexState::Code)
            } else {
                boundary_safe(s.skip(1), LexState::Line)
            }
        },
    }
}

/// Stripping distributes over concatenation at a safe boundary: what the
/// appended text contributes is its own stripping, begun in the state
/// the first part ends in.
pub proof fn lemma_strip_concat(a: Seq<u8>, b: Seq<u8>, st: LexState)
    requires
        boundary_safe(a, st),
    ensures
        strip_state(a + b, st) == strip_state(a, st) + strip_state(b, end_state(a, st)),
    decreases a.len(),
{
    let ab = a + b;
    if a.len() == 0 {
        assert(ab =~= b);
        assert(strip_state(a, st) =~= Seq::<u8>::empty());
        assert(strip_state(a, st) + strip_state(b, end_state(a, st)) =~= strip_state(b, st));
    } else {
        assert(ab.len() == a.len() + b.len());
        assert(ab[0] == a[0]);
        if a.len() >= 2 {
            assert(ab[1] == a[1]);
            assert(ab.skip(2) =~= a.skip(2) + b);
        }
        assert(ab.skip(1) =~= a.skip(1) + b);
        match st {
            LexState::Code => {
                if a.len() >= 2 && a[0] == 47u8 && a[1] == 42u8 {
                    lemma_strip_concat(a.skip(2), b, LexState::Block);
                } else if a.len() >= 2 && a[0] == 47u8 && a[1] == 47u8 {
                    lemma_strip_concat(a.skip(2), b, LexState::Line);
                } else {
                    // a lone final `/` is ruled out, so the first byte is
                    // plain code in `ab` exactly as in `a`
                    assert(a.len() >= 2 || a[0] != 47u8);
                    assert(!(ab.len() >= 2 && ab[0] == 47u8 && ab[1] == 42u8));
                    assert(!(ab.len() >= 2 && ab[0] == 47u8 && ab[1] == 47u8));
                    lemma_strip_concat(a.skip(1), b, LexState::Code);
                    assert(seq![a[0]] + (strip_state(a.skip(1), st) + strip_state(
                        b,
                        end_state(a.skip(1), st),
                    )) =~= (seq![a[0]] + strip_state(a.skip(1), st)) + strip_state(
                        b,
                        end_state(a.skip(1), st),
                    ));
                }
            },
            LexState::Block => {
                if a.len() >= 2 && a[0] == 42u8 && a[1] == 47u8 {
                    lemma_strip_concat(a.skip(2), b, LexState::Code);
                } else {
                    assert(a.len() >= 2 || a[0] != 42u8);
                    assert(!(ab.len() >= 2 && ab[0] == 42u8 && ab[1] == 47u8));
                    lemma_strip_concat(a.skip(1), b, LexState::Block);
                }
            },
            LexState::Line => {
                if a[0] == 10u8 {
                    lemma_strip_concat(a.skip(1), b, LexState::Code);
                    assert(seq![10u8] + (strip_state(a.skip(1), LexState::Code) + strip_state(
                        b,
                        end_state(a.skip(1), LexState::Code),
                    )) =~= (seq![10u8] + strip_state(a.skip(1), LexState::Code)) + strip_state(
                        b,
                        end_state(a.skip(1), LexState::Code),
                    ));
                } else {
                    lemma_strip_concat(a.skip(1), b, LexState::Line);
                }
            },
        }
    }
}

} // verus!
