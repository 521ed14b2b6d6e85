//! Names of the elements that the SVG back-end defines (gradients, clip
//! paths): a counter hands out numbers, written as letters.

use vstd::prelude::*;
use vstd::string::*;

verus! {

/// The letter for a digit below 52: `a` to `z`, then `A` to `Z`.
pub open spec fn id_letter(d: int) -> char {
    if d < 26 {
        ((d + 0x61) as u32) as char
    } else {
        ((d - 26 + 0x41) as u32) as char
    }
}

/// The name of the number `x`: its digits in base 52, least significant
/// first, as letters; at least one letter.
pub open spec fn id_name(x: nat) -> Seq<char>
    decreases x,
{
    if x / 52 == 0 {
        seq![id_letter((x % 52) as int)]
    } else {
        seq![id_letter((x % 52) as int)] + id_name(x / 52)
    }
}

/// The number of an element.
#[derive(Clone, Copy, Debug, PartialEq, Eq, Structural)]
pub struct Id(pub u64);

fn letter_str(d: u64) -> (s: &'static str)
    requires
        d < 52,
    ensures
        s@ == seq![id_letter(d as int)],
{
    let alphabet = "abcdefghijklmnopqrstuvwxyzABCDEFGHIJKLMNOPQRSTUVWXYZ";
    proof {
        reveal_strlit("abcdefghijklmnopqrstuvwxyzABCDEFGHIJKLMNOPQRSTUVWXYZ");
        assert(alphabet.is_ascii());
    }
    let s = alphabet.substring_ascii(d as usize, d as usize + 1);
    proof {
        let a = alphabet@;
        assert(a[d as int] == id_letter(d as int)) by {
            let t = seq![
                'a', 'b', 'c', 'd', 'e', 'f', 'g', 'h', 'i', 'j', 'k', 'l', 'm',
                'n', 'o', 'p', 'q', 'r', 's', 't', 'u', 'v', 'w', 'x', 'y', 'z',
                'A', 'B', 'C', 'D', 'E', 'F', 'G', 'H', 'I', 'J', 'K', 'L', 'M',
                'N', 'O', 'P', 'Q', 'R', 'S', 'T', 'U', 'V', 'W', 'X', 'Y', 'Z',
            ];
            assert(a =~= t);
        }
        assert(s@ =~= seq![a[d as int]]);
    }
    s
}

impl Id {
    /// The element's name.
    pub fn to_string(self) -> (s: String)
        ensures
            s@ == id_name(self.0 as nat),
    {
        let mut out = String::new();
        let mut x = self.0;
        loop
            invariant_except_break
                out@ + id_name(x as nat) == id_name(self.0 as nat),
            ensures
                out@ == id_name(self.0 as nat),
            decreases x,
        {
            let digit = x % 52;
            let ghost before = out@;
            out.append(letter_str(digit));
            proof {
                let l = seq![id_letter(digit as int)];
                if x / 52 == 0 {
                    assert(out@ =~= before + id_name(x as nat));
                } else {
                    assert(out@ + id_name((x / 52) as nat) =~= before + (l + id_name(
                        (x / 52) as nat,
                    )));
                }
            }
            x = x / 52;
            if x == 0 {
                break;
            }
        }
        out
    }
}

/// Distinct numbers have distinct names.
pub proof fn lemma_id_name_injective(x: nat, y: nat)
    requires
        x != y,
    ensures
        id_name(x) != id_name(y),
    decreases x,
{
    if id_name(x) == id_name(y) {
        assert(id_name(x)[0] == id_name(y)[0]);
        assert(x % 52 == y % 52);
        if x / 52 == 0 && y / 52 == 0 {
        } else if x / 52 == 0 {
            assert(id_name(y / 52).len() >= 1);
            assert(id_name(y).len() >= 2);
        } else if y / 52 == 0 {
            assert(id_name(x / 52).len() >= 1);
            assert(id_name(x).len() >= 2);
        } else {
            assert(id_name(x).drop_first() =~= id_name(x / 52));
            assert(id_name(y).drop_first() =~= id_name(y / 52));
            lemma_id_name_injective(x / 52, y / 52);
        }
    }
}

/// The counter that numbers the elements of a document.
pub struct IdCounter {
    pub next_id: u64,
}

impl IdCounter {
    pub fn new() -> (c: Self)
        ensures
            c.next_id == 0,
    {
        IdCounter { next_id: 0 }
    }

    /// A number not handed out before: the counter's value, which then
    /// moves on by one.
    pub fn new_id(&mut self) -> (id: Id)
        requires
            old(self).next_id < u64::MAX,
        ensures
            id.0 == old(self).next_id,
            final(self).next_id == old(self).next_id + 1,
    {
        let x = Id(self.next_id);
        self.next_id = self.next_id + 1;
        x
    }
}

} // verus!
