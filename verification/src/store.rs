//! The persisted-model naming scheme: one file per identity under the
//! data directory, and the inverse reading of a directory listing.

use vstd::prelude::*;
use crate::log_parse::str_eq;

verus! {

/// The file-name suffix every persisted model carries.
pub const BIN_SUFFIX: &'static str = ".bin";

/// Where the model for `nick` lives under `data_dir`.
pub open spec fn spec_path_for(data_dir: Seq<char>, nick: Seq<char>) -> Seq<char> {
    data_dir + "/"@ + nick + BIN_SUFFIX@
}

/// The path of the persisted model for an identity:
/// `<data_dir>/<nick>.bin`.
pub fn path_for_nick(data_dir: &str, nick: &str) -> (r: String)
    ensures
        r@ == spec_path_for(data_dir@, nick@),
{
    let mut p = data_dir.to_owned();
    p.append("/");
    p.append(nick);
    p.append(BIN_SUFFIX);
    p
}

/// The identity a persisted file name stands for: its nonempty stem,
/// if the name carries the model suffix; nothing otherwise. A name that
/// is nothing but the suffix stands for no identity.
pub open spec fn spec_bin_stem(name: Seq<char>) -> Option<Seq<char>> {
    if name.len() > BIN_SUFFIX@.len() && name.subrange(
        name.len() - BIN_SUFFIX@.len(),
        name.len() as int,
    ) == BIN_SUFFIX@ {
        Option::Some(name.subrange(0, name.len() - BIN_SUFFIX@.len()))
    } else {
        Option::None
    }
}

/// The identities a directory listing names, in listing order.
pub open spec fn spec_nicks_of(files: Seq<Seq<char>>) -> Seq<Seq<char>>
    decreases files.len(),
{
    if files.len() == 0 {
        Seq::empty()
    } else {
        let rest = spec_nicks_of(files.drop_last());
        match spec_bin_stem(files.last()) {
            Option::Some(stem) => rest.push(stem),
            Option::None => rest,
        }
    }
}

/// Read a directory listing as the identities with a persisted model:
/// the stems of the names that carry the model suffix. Diagnostics only;
/// the in-memory cache is not involved.
pub fn nicks_from_listing(files: &Vec<String>) -> (r: Vec<String>)
    ensures
        r.deep_view() == spec_nicks_of(files.deep_view()),
{
    let mut out: Vec<String> = Vec::new();
    let mut i: usize = 0;
    proof {
        assert(files.deep_view().take(0) =~= Seq::<Seq<char>>::empty());
        assert(out.deep_view() =~= spec_nicks_of(files.deep_view().take(0)));
    }
    while i < files.len()
        invariant
            i <= files.len(),
            out.deep_view() == spec_nicks_of(files.deep_view().take(i as int)),
        decreases files.len() - i,
    {
        let name = &files[i];
        let n = name.as_str().unicode_len();
        let p = BIN_SUFFIX.unicode_len();
        let ghost fv = files.deep_view();
        proof {
            assert(fv.take(i + 1 as int).drop_last() =~= fv.take(i as int));
            assert(fv.take(i + 1 as int).last() == fv[i as int]);
            assert(fv[i as int] == name@);
        }
        if n > p {
            let suffix = name.as_str().substring_char(n - p, n);
            if str_eq(suffix, BIN_SUFFIX) {
                let stem = name.as_str().substring_char(0, n - p).to_owned();
                out.push(stem);
            } else {
                proof {
                    assert(spec_bin_stem(name@) is None);
                }
            }
        } else {
            proof {
                assert(spec_bin_stem(name@) is None);
            }
        }
        i = i + 1;
    }
    proof {
        assert(files.deep_view().take(files@.len() as int) =~= files.deep_view());
    }
    out
}

} // verus!
