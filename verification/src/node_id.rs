//! Node addresses of a quadtree and their textual form.
//!
//! A node is named by its level (0 is the root) and by an index that spells
//! the path from the root in base 4, one digit per level. Its name is the
//! letter `r` followed by those digits, most significant first.

use vstd::prelude::*;
use vstd::string::*;
use vstd::arithmetic::power2::{pow2, lemma2_to64, lemma2_to64_rest, lemma_pow2_unfold, lemma_pow2_strictly_increases};

verus! {

/// The deepest level whose indices still fit in 64 bits.
pub const MAX_LEVEL: u8 = 32;

/// Address of one node: its level and its position among the nodes of that level.
#[derive(Clone, Copy, Debug, PartialEq, Eq, Structural, Hash)]
pub struct NodeId {
    pub level: u8,
    pub index: u64,
}

/// The character of one base-4 digit.
pub open spec fn digit_char(d: nat) -> char {
    if d == 0 {
        '0'
    } else if d == 1 {
        '1'
    } else if d == 2 {
        '2'
    } else {
        '3'
    }
}

/// Whether `c` is one of the four digit characters.
pub open spec fn is_digit(c: char) -> bool {
    c == '0' || c == '1' || c == '2' || c == '3'
}

/// The value of a digit character; 0 for any other character.
pub open spec fn digit_value(c: char) -> nat {
    if c == '1' {
        1
    } else if c == '2' {
        2
    } else if c == '3' {
        3
    } else {
        0
    }
}

/// `index` written in base 4 with exactly `level` digits, most significant first.
pub open spec fn spec_digits(level: nat, index: nat) -> Seq<char>
    decreases level,
{
    if level == 0 {
        Seq::empty()
    } else {
        spec_digits((level - 1) as nat, index / 4).push(digit_char(index % 4))
    }
}

/// Whether every character of `s` is a base-4 digit.
pub open spec fn all_digits(s: Seq<char>) -> bool {
    forall|i: int| 0 <= i < s.len() ==> is_digit(#[trigger] s[i])
}

/// The number that the base-4 digits of `s` spell.
pub open spec fn spec_digits_value(s: Seq<char>) -> nat
    decreases s.len(),
{
    if s.len() == 0 {
        0
    } else {
        4 * spec_digits_value(s.drop_last()) + digit_value(s.last())
    }
}

/// The node that `s` names, if it names one: an `r`, then at most
/// `MAX_LEVEL` base-4 digits. The number of digits is the level.
pub open spec fn spec_parse_name(s: Seq<char>) -> Option<NodeId> {
    if s.len() >= 1 && s[0] == 'r' && s.len() - 1 <= MAX_LEVEL && all_digits(s.subrange(1, s.len() as int)) {
        Some(
            NodeId {
                level: (s.len() - 1) as u8,
                index: spec_digits_value(s.subrange(1, s.len() as int)) as u64,
            },
        )
    } else {
        None
    }
}

/// Four to the power `level` is at most 2^64 up to `MAX_LEVEL`, and grows with the level.
pub proof fn lemma_capacity(level: nat)
    requires
        level <= MAX_LEVEL,
    ensures
        pow2(2 * level) <= 0x1_0000_0000_0000_0000,
        pow2(2 * (level + 1)) == 4 * pow2(2 * level),
        pow2(2 * level) >= 1,
{
    lemma2_to64();
    lemma2_to64_rest();
    if level < 32 {
        lemma_pow2_strictly_increases(2 * level, 64);
    }
    lemma_pow2_unfold(2 * level + 2);
    lemma_pow2_unfold(2 * level + 1);
    vstd::arithmetic::power2::lemma_pow2_pos(2 * level);
}

/// The digits of an index below `4^level` have length `level`, are all
/// digits, and spell the index.
pub proof fn lemma_digits_round_trip(level: nat, index: nat)
    requires
        level <= MAX_LEVEL,
        index < pow2(2 * level),
    ensures
        spec_digits(level, index).len() == level,
        all_digits(spec_digits(level, index)),
        spec_digits_value(spec_digits(level, index)) == index,
    decreases level,
{
    if level == 0 {
        lemma2_to64();
    } else {
        let rest = (level - 1) as nat;
        lemma_capacity(rest);
        lemma_digits_round_trip(rest, index / 4);
        let s = spec_digits(level, index);
        assert(s.drop_last() =~= spec_digits(rest, index / 4));
        assert(s.last() == digit_char(index % 4));
        assert forall|i: int| 0 <= i < s.len() implies is_digit(#[trigger] s[i]) by {
            if i < s.len() - 1 {
                assert(s[i] == spec_digits(rest, index / 4)[i]);
            }
        }
    }
}

/// The value of `s` is below four to the power of its length.
pub proof fn lemma_digits_value_bound(s: Seq<char>)
    requires
        s.len() <= MAX_LEVEL,
    ensures
        spec_digits_value(s) < pow2(2 * s.len()),
    decreases s.len(),
{
    if s.len() == 0 {
        lemma2_to64();
    } else {
        lemma_digits_value_bound(s.drop_last());
        lemma_capacity(s.drop_last().len());
    }
}

/// Digits that spell a value are the digits of that value.
pub proof fn lemma_value_round_trip(s: Seq<char>)
    requires
        all_digits(s),
    ensures
        spec_digits(s.len(), spec_digits_value(s)) == s,
    decreases s.len(),
{
    if s.len() > 0 {
        let front = s.drop_last();
        assert forall|i: int| 0 <= i < front.len() implies is_digit(#[trigger] front[i]) by {
            assert(front[i] == s[i]);
        }
        lemma_value_round_trip(front);
        let v = spec_digits_value(s);
        assert(is_digit(s[s.len() - 1]));
        assert(v / 4 == spec_digits_value(front));
        assert(digit_char(v % 4) == s.last());
        assert(spec_digits(s.len(), v) =~= s);
    } else {
        assert(spec_digits(0, spec_digits_value(s)) =~= s);
    }
}

impl NodeId {
    /// A valid address: the level is at most `MAX_LEVEL` and the index is
    /// below four to the power of the level.
    pub open spec fn wf(self) -> bool {
        self.level <= MAX_LEVEL && (self.index as nat) < pow2(2 * (self.level as nat))
    }

    /// The name of the node: `r`, then its index in `level` base-4 digits.
    pub open spec fn spec_name(self) -> Seq<char> {
        seq!['r'] + spec_digits(self.level as nat, self.index as nat)
    }

    /// The address one level up. Meaningful below the root.
    pub open spec fn spec_parent(self) -> NodeId {
        NodeId { level: (self.level - 1) as u8, index: self.index / 4 }
    }

    /// The address of child `c` (0 to 3), one level down.
    pub open spec fn spec_child(self, c: u8) -> NodeId {
        NodeId { level: (self.level + 1) as u8, index: (self.index * 4 + c) as u64 }
    }

    /// Makes an address from its two parts, when they form a valid one.
    pub fn new(level: u8, index: u64) -> (r: Option<NodeId>)
        ensures
            r == if (NodeId { level, index }).wf() {
                Some(NodeId { level, index })
            } else {
                None::<NodeId>
            },
    {
        if level > MAX_LEVEL {
            return None;
        }
        let mut bound: u64 = 1;
        let mut i: u8 = 0;
        proof {
            lemma2_to64();
        }
        while i < level
            invariant
                i <= level <= MAX_LEVEL,
                i < MAX_LEVEL ==> bound as nat == pow2(2 * (i as nat)),
                i == MAX_LEVEL ==> bound == 0,
            decreases level - i,
        {
            proof {
                lemma_capacity(i as nat);
                lemma_capacity((i + 1) as nat);
            }
            if i == MAX_LEVEL - 1 {
                bound = 0;
            } else {
                proof {
                    lemma_pow2_strictly_increases(2 * (i + 1) as nat, 64);
                    lemma2_to64_rest();
                }
                bound = bound * 4;
            }
            i = i + 1;
        }
        proof {
            lemma_capacity(level as nat);
            lemma2_to64_rest();
            if level == MAX_LEVEL {
                assert(pow2(64) == 0x1_0000_0000_0000_0000);
            }
        }
        if level == MAX_LEVEL || index < bound {
            Some(NodeId { level, index })
        } else {
            None
        }
    }

    /// The address of the root.
    pub fn root() -> (r: NodeId)
        ensures
            r == (NodeId { level: 0, index: 0 }),
            r.wf(),
    {
        proof {
            lemma2_to64();
        }
        NodeId { level: 0, index: 0 }
    }

    /// The level of the node; the root is at level 0.
    pub fn level(&self) -> (r: u8)
        ensures
            r == self.level,
    {
        self.level
    }

    /// The position of the node among those of its level.
    pub fn index(&self) -> (r: u64)
        ensures
            r == self.index,
    {
        self.index
    }

    /// The address of child `c`: one level down, at `index * 4 + c`.
    pub fn get_child_id(&self, c: u8) -> (r: NodeId)
        requires
            self.wf(),
            self.level < MAX_LEVEL,
            c < 4,
        ensures
            r == self.spec_child(c),
            r.level == self.level + 1,
            r.index == self.index * 4 + c,
            r.wf(),
            r.spec_parent() == *self,
    {
        proof {
            lemma_capacity(self.level as nat);
            lemma_capacity((self.level + 1) as nat);
        }
        NodeId { level: self.level + 1, index: self.index * 4 + c as u64 }
    }

    /// The address of the parent, or `None` for the root.
    pub fn parent_id(&self) -> (r: Option<NodeId>)
        requires
            self.wf(),
        ensures
            self.level == 0 ==> r is None,
            self.level > 0 ==> r == Some(self.spec_parent()) && self.spec_parent().wf(),
    {
        if self.level == 0 {
            None
        } else {
            proof {
                lemma_capacity((self.level - 1) as nat);
            }
            Some(NodeId { level: self.level - 1, index: self.index / 4 })
        }
    }

    /// The name of the node: `r`, then `level` base-4 digits of the index.
    pub fn to_string(&self) -> (r: String)
        ensures
            r@ == self.spec_name(),
    {
        let mut out = String::from_str("r");
        proof {
            reveal_strlit("r");
            assert(out@ =~= seq!['r']);
        }
        push_digits(self.level, self.index, &mut out);
        out
    }

    /// Reads a name back into an address. `None` unless the text is an `r`
    /// followed by at most `MAX_LEVEL` base-4 digits.
    pub fn from_str(name: &str) -> (r: Option<NodeId>)
        ensures
            r == spec_parse_name(name@),
            r is Some ==> r.unwrap().wf() && r.unwrap().spec_name() == name@,
    {
        let n = name.unicode_len();
        if n == 0 || n > 33 {
            return None;
        }
        if name.get_char(0) != 'r' {
            return None;
        }
        let ghost tail = name@.subrange(1, n as int);
        let mut value: u64 = 0;
        let mut i: usize = 1;
        while i < n
            invariant
                1 <= i <= n <= 33,
                n == name@.len(),
                tail == name@.subrange(1, n as int),
                all_digits(tail.subrange(0, i - 1)),
                value as nat == spec_digits_value(tail.subrange(0, i - 1)),
            decreases n - i,
        {
            let c = name.get_char(i);
            let d: u64 = if c == '0' {
                0
            } else if c == '1' {
                1
            } else if c == '2' {
                2
            } else if c == '3' {
                3
            } else {
                proof {
                    assert(tail[i - 1] == c);
                    assert(!is_digit(tail[i - 1]));
                }
                return None;
            };
            proof {
                let before = tail.subrange(0, i - 1);
                let after = tail.subrange(0, i as int);
                assert(after.drop_last() =~= before);
                assert(after.last() == c);
                lemma_digits_value_bound(before);
                assert(before.len() == i - 1);
                lemma_capacity((i - 1) as nat);
                lemma_capacity(i as nat);
                assert forall|k: int| 0 <= k < after.len() implies is_digit(#[trigger] after[k]) by {
                    if k < i - 1 {
                        assert(after[k] == before[k]);
                    }
                }
            }
            value = value * 4 + d;
            i = i + 1;
        }
        proof {
            assert(tail.subrange(0, n - 1) =~= tail);
            lemma_digits_value_bound(tail);
            lemma_value_round_trip(tail);
            assert(name@ =~= seq!['r'] + tail);
        }
        Some(NodeId { level: (n - 1) as u8, index: value })
    }
}

/// Appends the `level` base-4 digits of `index` to `out`.
fn push_digits(level: u8, index: u64, out: &mut String)
    ensures
        final(out)@ == old(out)@ + spec_digits(level as nat, index as nat),
    decreases level,
{
    if level == 0 {
        assert(out@ =~= out@ + Seq::<char>::empty());
    } else {
        push_digits(level - 1, index / 4, out);
        let d = index % 4;
        let ghost before = out@;
        if d == 0 {
            out.append("0");
            proof {
                reveal_strlit("0");
            }
        } else if d == 1 {
            out.append("1");
            proof {
                reveal_strlit("1");
            }
        } else if d == 2 {
            out.append("2");
            proof {
                reveal_strlit("2");
            }
        } else {
            out.append("3");
            proof {
                reveal_strlit("3");
            }
        }
        assert(out@ =~= before.push(digit_char((index % 4) as nat)));
        assert(out@ =~= old(out)@ + spec_digits(level as nat, index as nat));
    }
}

/// Writing a valid address as text and reading the text back gives the
/// address again.
pub proof fn lemma_name_round_trip(id: NodeId)
    requires
        id.wf(),
    ensures
        spec_parse_name(id.spec_name()) == Some(id),
{
    let digits = spec_digits(id.level as nat, id.index as nat);
    lemma_digits_round_trip(id.level as nat, id.index as nat);
    let s = id.spec_name();
    assert(s.subrange(1, s.len() as int) =~= digits);
}

/// Two valid addresses with the same name are the same address.
pub proof fn lemma_name_injective(a: NodeId, b: NodeId)
    requires
        a.wf(),
        b.wf(),
        a.spec_name() == b.spec_name(),
    ensures
        a == b,
{
    lemma_name_round_trip(a);
    lemma_name_round_trip(b);
}

} // verus!
