//! Command-line arguments: `--name value` pairs apart from positional ones.

use crate::error::Error;
use vstd::prelude::*;

verus! {

pub open spec fn is_flag(a: Seq<char>) -> bool {
    a.len() >= 2 && a[0] == '-' && a[1] == '-'
}

/// Positional arguments in order, and each flag's name (without `--`) with
/// the argument after it.
pub open spec fn flags_spec(args: Seq<Seq<char>>) -> Result<(Seq<Seq<char>>, Seq<(Seq<char>, Seq<char>)>), Error>
    decreases args.len(),
{
    if args.len() == 0 {
        Ok((seq![], seq![]))
    } else if is_flag(args[0]) {
        if args.len() < 2 {
            Err(Error::FlagNeedsValue)
        } else {
            match flags_spec(args.skip(2)) {
                Ok((p, n)) => Ok((p, seq![(args[0].skip(2), args[1])] + n)),
                Err(e) => Err(e),
            }
        }
    } else {
        match flags_spec(args.drop_first()) {
            Ok((p, n)) => Ok((seq![args[0]] + p, n)),
            Err(e) => Err(e),
        }
    }
}

pub open spec fn strings_view(v: Seq<String>) -> Seq<Seq<char>> {
    v.map_values(|s: String| s@)
}

pub open spec fn pairs_view(v: Seq<(String, String)>) -> Seq<(Seq<char>, Seq<char>)> {
    v.map_values(|p: (String, String)| (p.0@, p.1@))
}

/// Splits `--name value` pairs from positional arguments.
pub fn flags(args: &Vec<String>) -> (r: Result<(Vec<String>, Vec<(String, String)>), Error>)
    ensures
        match (r, flags_spec(strings_view(args@))) {
            (Ok((p, n)), Ok((sp, sn))) => strings_view(p@) == sp && pairs_view(n@) == sn,
            (Err(a), Err(b)) => a == b,
            _ => false,
        },
{
    let ghost all = strings_view(args@);
    let mut positional: Vec<String> = Vec::new();
    let mut named: Vec<(String, String)> = Vec::new();
    let mut i: usize = 0;
    assert(all.skip(0) =~= all);
    assert(strings_view(positional@) =~= Seq::<Seq<char>>::empty());
    assert(pairs_view(named@) =~= Seq::<(Seq<char>, Seq<char>)>::empty());
    while i < args.len()
        invariant
            all == strings_view(args@),
            i <= args@.len(),
            match flags_spec(all.skip(i as int)) {
                Ok((p, n)) => flags_spec(all) == Ok::<(Seq<Seq<char>>, Seq<(Seq<char>, Seq<char>)>), Error>(
                    (strings_view(positional@) + p, pairs_view(named@) + n),
                ),
                Err(e) => flags_spec(all) == Err::<(Seq<Seq<char>>, Seq<(Seq<char>, Seq<char>)>), Error>(e),
            },
        decreases args@.len() - i,
    {
        let a = crate::text::chars_of(args[i].as_str());
        let ghost rest = all.skip(i as int);
        assert(rest[0] == args@[i as int]@);
        if a.len() >= 2 && a[0] == '-' && a[1] == '-' {
            if i + 1 >= args.len() {
                assert(rest.len() < 2);
                return Err(Error::FlagNeedsValue);
            }
            let mut name: Vec<char> = Vec::new();
            let mut k: usize = 2;
            while k < a.len()
                invariant
                    2 <= k <= a@.len(),
                    name@ == a@.subrange(2, k as int),
                decreases a@.len() - k,
            {
                name.push(a[k]);
                k += 1;
            }
            let ghost before_p = strings_view(positional@);
            let ghost before_n = pairs_view(named@);
            named.push((crate::text::string_of(name.as_slice()), args[i + 1].clone()));
            proof {
                assert(rest.skip(2) =~= all.skip(i + 2));
                assert(name@ =~= rest[0].skip(2));
                assert(rest[1] == args@[i + 1]@);
                assert(pairs_view(named@) =~= before_n.push((rest[0].skip(2), rest[1])));
                match flags_spec(all.skip(i + 2)) {
                    Ok((p, n)) => {
                        assert(before_n + (seq![(rest[0].skip(2), rest[1])] + n) =~= pairs_view(named@) + n);
                    },
                    Err(_) => {},
                }
            }
            i += 2;
        } else {
            let ghost before_p = strings_view(positional@);
            positional.push(args[i].clone());
            proof {
                assert(rest.drop_first() =~= all.skip(i + 1));
                assert(strings_view(positional@) =~= before_p.push(rest[0]));
                match flags_spec(all.skip(i + 1)) {
                    Ok((p, n)) => {
                        assert(before_p + (seq![rest[0]] + p) =~= strings_view(positional@) + p);
                    },
                    Err(_) => {},
                }
            }
            i += 1;
        }
    }
    proof {
        assert(all.skip(i as int) =~= Seq::<Seq<char>>::empty());
        assert(strings_view(positional@) + Seq::<Seq<char>>::empty() =~= strings_view(positional@));
        assert(pairs_view(named@) + Seq::<(Seq<char>, Seq<char>)>::empty() =~= pairs_view(named@));
    }
    Ok((positional, named))
}

} // verus!
