//! Where worlds are stored.

use vstd::prelude::*;
use vstd::string::StringExecFns;

verus! {

/// The decimal digits of `n`, most significant first.
pub open spec fn decimal(n: nat) -> Seq<char>
    decreases n,
{
    if n < 10 {
        seq![(n + 48) as char]
    } else {
        decimal(n / 10).push(((n % 10) + 48) as char)
    }
}

/// Digit `d` as a string of one character.
fn digit_str(d: u32) -> (r: &'static str)
    requires
        d < 10,
    ensures
        r@ == seq![(d + 48) as char],
{
    if d == 0 {
        proof {
            reveal_strlit("0");
        }
        "0"
    } else if d == 1 {
        proof {
            reveal_strlit("1");
        }
        "1"
    } else if d == 2 {
        proof {
            reveal_strlit("2");
        }
        "2"
    } else if d == 3 {
        proof {
            reveal_strlit("3");
        }
        "3"
    } else if d == 4 {
        proof {
            reveal_strlit("4");
        }
        "4"
    } else if d == 5 {
        proof {
            reveal_strlit("5");
        }
        "5"
    } else if d == 6 {
        proof {
            reveal_strlit("6");
        }
        "6"
    } else if d == 7 {
        proof {
            reveal_strlit("7");
        }
        "7"
    } else if d == 8 {
        proof {
            reveal_strlit("8");
        }
        "8"
    } else {
        proof {
            reveal_strlit("9");
        }
        "9"
    }
}

/// `n` in decimal, most significant digit first.
fn decimal_string(n: u32) -> (r: String)
    ensures
        r@ == decimal(n as nat),
    decreases n,
{
    if n < 10 {
        String::from_str(digit_str(n))
    } else {
        let mut s = decimal_string(n / 10);
        s.append(digit_str(n % 10));
        s
    }
}

/// The name of the directory of the world with seed `seed`: `world_` and the seed in decimal.
fn world_dir_name(seed: u32) -> (r: String)
    ensures
        r@ == "world_"@ + decimal(seed as nat),
{
    let mut name = String::from_str("world_");
    let digits = decimal_string(seed);
    name.append(digits.as_str());
    name
}

/// The directory under which worlds are stored.
pub struct WorldList {
    store_path: String,
}

impl View for WorldList {
    type V = Seq<char>;

    closed spec fn view(&self) -> Seq<char> {
        self.store_path@
    }
}

impl WorldList {
    /// Worlds are stored under `worlds`.
    pub fn new() -> (r: Self)
        ensures
            r@ == "worlds"@,
    {
        WorldList { store_path: String::from_str("worlds") }
    }

    /// The directory under which worlds are stored.
    pub fn store_path(&self) -> (r: &String)
        ensures
            r@ == self@,
    {
        &self.store_path
    }

    /// The path of the world with seed `seed`: its directory under the store path.
    pub fn get_world_path(&self, seed: u32) -> (r: String)
        ensures
            r@ == self@ + "/"@ + "world_"@ + decimal(seed as nat),
    {
        let name = world_dir_name(seed);
        let mut path = self.store_path.clone();
        path.append("/");
        path.append(name.as_str());
        path
    }
}

} // verus!
