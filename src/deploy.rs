use vstd::prelude::*;

verus! {

/// A switch of the release tool's command line.
#[derive(Debug, Clone, Copy, PartialEq, Eq, Structural)]
pub enum Param {
    Optimize,
    PushToItch,
}

impl Param {
    /// The short spelling of the switch.
    pub open spec fn spec_short(self) -> Seq<char> {
        match self {
            Param::Optimize => "-o"@,
            Param::PushToItch => "-p"@,
        }
    }

    /// The long spelling of the switch.
    pub open spec fn spec_long(self) -> Seq<char> {
        match self {
            Param::Optimize => "--optimize"@,
            Param::PushToItch => "--push-to-itch"@,
        }
    }

    /// The short and the long spelling of the switch.
    pub fn to_short_long_string(&self) -> (r: (String, String))
        ensures
            r.0@ == self.spec_short(),
            r.1@ == self.spec_long(),
    {
        let (short, long) = match self {
            Param::Optimize => ("-o", "--optimize"),
            Param::PushToItch => ("-p", "--push-to-itch"),
        };
        (short.to_string(), long.to_string())
    }

    /// Whether one of `args` spells the switch, short or long.
    pub fn is_set_in(&self, args: &Vec<String>) -> (r: bool)
        ensures
            r == exists|i: int|
                0 <= i < args.len() && (#[trigger] args@[i]@ == self.spec_short() || args@[i]@
                    == self.spec_long()),
    {
        let (short, long) = self.to_short_long_string();
        let mut i: usize = 0;
        while i < args.len()
            invariant
                0 <= i <= args.len(),
                short@ == self.spec_short(),
                long@ == self.spec_long(),
                forall|j: int|
                    0 <= j < i ==> !(#[trigger] args@[j]@ == self.spec_short() || args@[j]@ == self.spec_long()),
            decreases args.len() - i,
        {
            if args[i] == short || args[i] == long {
                assert(args@[i as int]@ == self.spec_short() || args@[i as int]@ == self.spec_long());
                return true;
            }
            i += 1;
        }
        false
    }
}

} // verus!
