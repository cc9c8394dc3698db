use vstd::prelude::*;
use vstd::string::StringSliceAdditionalSpecFns;

verus! {

/// The unit written once per nesting level after a synthetic newline.
///
/// Anything other than some spaces or some tabs is allowed, though not
/// recommended.
#[derive(Debug, Copy, Clone, PartialEq, Eq, Hash)]
pub enum Indentation<'a> {
    /// Two spaces per level.
    Default,
    /// The given text per level.
    Custom(&'a str),
}

impl<'a> Indentation<'a> {
    /// The bytes of one level of indentation.
    pub open spec fn unit(self) -> Seq<u8> {
        match self {
            Indentation::Default => seq![32u8, 32u8],
            Indentation::Custom(s) => s.spec_bytes(),
        }
    }

    /// The bytes of one level of indentation, as a slice.
    pub fn unit_bytes(&self) -> (r: &'a [u8])
        ensures
            r@ == self.unit(),
    {
        match self {
            Indentation::Default => {
                let r: &'a [u8] = "  ".as_bytes();
                proof {
                    reveal_strlit("  ");
                    broadcast use vstd::string::is_ascii_spec_bytes;
                    assert("  "@ =~= seq![' ', ' ']);
                    assert(vstd::string::is_ascii("  "));
                    assert(r@ =~= seq![32u8, 32u8]);
                }
                r
            },
            Indentation::Custom(s) => s.as_bytes(),
        }
    }
}

/// `unit` written `n` times in a row.
pub open spec fn repeat_unit(unit: Seq<u8>, n: nat) -> Seq<u8>
    decreases n,
{
    if n == 0 {
        seq![]
    } else {
        repeat_unit(unit, (n - 1) as nat) + unit
    }
}

/// Appends `level` repetitions of the indentation unit to `writer`.
pub fn indent_buffered(writer: &mut Vec<u8>, level: usize, indentation: Indentation)
    ensures
        final(writer)@ == old(writer)@ + repeat_unit(indentation.unit(), level as nat),
{
    let unit = indentation.unit_bytes();
    let mut done: usize = 0;
    while done < level
        invariant
            done <= level,
            unit@ == indentation.unit(),
            writer@ == old(writer)@ + repeat_unit(unit@, done as nat),
        decreases level - done,
    {
        let ghost before = writer@;
        let mut j: usize = 0;
        while j < unit.len()
            invariant
                j <= unit@.len(),
                writer@ == before + unit@.subrange(0, j as int),
            decreases unit@.len() - j,
        {
            writer.push(unit[j]);
            proof {
                assert(unit@.subrange(0, j + 1) == unit@.subrange(0, j as int).push(unit@[j as int]));
            }
            j = j + 1;
        }
        proof {
            assert(unit@.subrange(0, unit@.len() as int) == unit@);
            assert(before + unit@ == old(writer)@ + repeat_unit(unit@, (done + 1) as nat));
        }
        done = done + 1;
    }
}

} // verus!
