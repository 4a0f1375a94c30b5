//! Archive paths: absolute, `/`-separated component sequences.
//!
//! A path must start with `/`. Splitting drops empty components, so
//! repeated and trailing separators carry no meaning; `.` and `..` stay
//! components and resolve through the directory links every chain holds.

use vstd::prelude::*;

use crate::Error;

verus! {

/// The components accumulated by a left-to-right walk of `s`, with `cur`
/// the partial component read so far.
pub open spec fn split_acc(s: Seq<char>, cur: Seq<char>) -> Seq<Seq<char>>
    decreases s.len(),
{
    if s.len() == 0 {
        if cur.len() > 0 {
            seq![cur]
        } else {
            Seq::<Seq<char>>::empty()
        }
    } else if s[0] == '/' {
        (if cur.len() > 0 {
            seq![cur]
        } else {
            Seq::<Seq<char>>::empty()
        }) + split_acc(s.drop_first(), Seq::<char>::empty())
    } else {
        split_acc(s.drop_first(), cur.push(s[0]))
    }
}

/// The non-empty components of `s`, split on `/`.
pub open spec fn split_comps(s: Seq<char>) -> Seq<Seq<char>> {
    split_acc(s, Seq::<char>::empty())
}

/// Rejects a path that does not start at the root.
pub fn check_root(path: &str) -> (r: Result<(), Error>)
    ensures
        r is Ok <==> path@.len() >= 1 && path@[0] == '/',
        r matches Err(e) ==> e == Error::InvalidPath,
{
    let n = path.unicode_len();
    if n == 0 {
        return Err(Error::InvalidPath);
    }
    let c = path.get_char(0);
    if c == '/' {
        Ok(())
    } else {
        Err(Error::InvalidPath)
    }
}

/// Splits a path into its non-empty components.
pub fn components(path: &str) -> (r: Vec<String>)
    ensures
        crate::manager::comps_view(r@) == split_comps(path@),
{
    let n = path.unicode_len();
    let mut comps: Vec<String> = Vec::new();
    let mut start: usize = 0;
    let mut i: usize = 0;
    proof {
        assert(path@.skip(0) =~= path@);
        assert(path@.subrange(0, 0) =~= Seq::<char>::empty());
        assert(crate::manager::comps_view(comps@) =~= Seq::<Seq<char>>::empty());
    }
    while i < n
        invariant
            n == path@.len(),
            start <= i <= n,
            split_comps(path@) == crate::manager::comps_view(comps@) + split_acc(
                path@.skip(i as int),
                path@.subrange(start as int, i as int),
            ),
        decreases n - i,
    {
        let c = path.get_char(i);
        proof {
            assert(path@.skip(i as int)[0] == path@[i as int]);
            assert(path@.skip(i as int).drop_first() =~= path@.skip(i + 1));
        }
        if c == '/' {
            if i > start {
                let comp = path.substring_char(start, i).to_owned();
                let ghost pre = comps@;
                comps.push(comp);
                proof {
                    assert(crate::manager::comps_view(comps@) =~= crate::manager::comps_view(pre)
                        + seq![path@.subrange(start as int, i as int)]);
                    assert(path@.subrange(i + 1, i + 1) =~= Seq::<char>::empty());
                }
            } else {
                proof {
                    assert(path@.subrange(start as int, i as int).len() == 0);
                    assert(path@.subrange(i + 1, i + 1) =~= Seq::<char>::empty());
                    assert(crate::manager::comps_view(comps@) + Seq::<Seq<char>>::empty()
                        + split_acc(path@.skip(i + 1), Seq::<char>::empty())
                        =~= crate::manager::comps_view(comps@) + split_acc(
                        path@.skip(i + 1),
                        Seq::<char>::empty(),
                    ));
                }
            }
            start = i + 1;
        } else {
            proof {
                assert(path@.subrange(start as int, i as int).push(path@[i as int])
                    =~= path@.subrange(start as int, i + 1));
            }
        }
        i = i + 1;
    }
    if i > start {
        let comp = path.substring_char(start, i).to_owned();
        let ghost pre = comps@;
        comps.push(comp);
        proof {
            assert(path@.skip(n as int).len() == 0);
            assert(crate::manager::comps_view(comps@) =~= crate::manager::comps_view(pre) + seq![
                path@.subrange(start as int, i as int),
            ]);
        }
    } else {
        proof {
            assert(path@.skip(n as int).len() == 0);
            assert(path@.subrange(start as int, i as int).len() == 0);
            assert(crate::manager::comps_view(comps@) + Seq::<Seq<char>>::empty()
                =~= crate::manager::comps_view(comps@));
        }
    }
    comps
}

} // verus!
