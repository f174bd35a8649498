//! File-extension recognition: the extension of a file name, and the
//! compound form used when a `.patch` file's preceding segment is kept.

use vstd::prelude::*;
use vstd::string::StringExecFns;

use crate::util::text::chars_to_string;

verus! {

/// The index of the last dot in the name, or -1 when there is none.
pub open spec fn last_dot(s: Seq<char>) -> int
    decreases s.len(),
{
    if s.len() == 0 {
        -1
    } else if s.last() == '.' {
        s.len() - 1
    } else {
        last_dot(s.drop_last())
    }
}

pub proof fn lemma_last_dot(s: Seq<char>)
    ensures
        -1 <= last_dot(s) < s.len(),
        last_dot(s) == -1 ==> forall|k: int| 0 <= k < s.len() ==> s[k] != '.',
        last_dot(s) >= 0 ==> s[last_dot(s)] == '.' && (forall|k: int|
            last_dot(s) < k < s.len() ==> s[k] != '.'),
    decreases s.len(),
{
    if s.len() > 0 && s.last() != '.' {
        lemma_last_dot(s.drop_last());
        assert(forall|k: int| 0 <= k < s.len() - 1 ==> #[trigger] s[k] == s.drop_last()[k]);
    }
}

/// The extension of a file name: the part after the last dot, none when the
/// only dot leads a hidden file's name; and whether the name is a patch
/// file, in which case the preceding segment is kept as a compound
/// extension.
pub open spec fn spec_ext_info(name: Seq<char>) -> (Seq<char>, bool) {
    let j = last_dot(name);
    let ext = if j <= 0 {
        Seq::<char>::empty()
    } else {
        name.subrange(j + 1, name.len() as int)
    };
    if ext == "patch"@ {
        let stem = name.subrange(0, j);
        let k = last_dot(stem);
        if k >= 0 {
            (stem.subrange(k + 1, stem.len() as int) + "."@ + ext, true)
        } else {
            (ext, true)
        }
    } else {
        (ext, false)
    }
}

/// The index one past the last dot of `v`, or 0 when there is none.
fn find_last_dot(v: &Vec<char>) -> (r: Option<usize>)
    ensures
        match r {
            Some(i) => i < v@.len() && i as int == last_dot(v@),
            None => last_dot(v@) == -1,
        },
{
    proof {
        lemma_last_dot(v@);
    }
    let mut i: usize = v.len();
    while i > 0
        invariant
            i <= v@.len(),
            forall|k: int| i <= k < v@.len() ==> v@[k] != '.',
        decreases i,
    {
        i = i - 1;
        if v[i] == '.' {
            proof {
                lemma_last_dot(v@);
            }
            return Some(i);
        }
    }
    proof {
        lemma_last_dot(v@);
    }
    None
}

/// The extension of a file name and whether it is a patch file, with the
/// compound extension for a patch file whose stem has a dot of its own.
pub fn get_extension_info(file_name: &str) -> (r: (String, bool))
    ensures
        r.0@ == spec_ext_info(file_name@).0,
        r.1 == spec_ext_info(file_name@).1,
{
    let n = file_name.unicode_len();
    let mut v: Vec<char> = Vec::new();
    let mut i: usize = 0;
    while i < n
        invariant
            i <= n,
            n == file_name@.len(),
            v@ == file_name@.subrange(0, i as int),
        decreases n - i,
    {
        v.push(file_name.get_char(i));
        proof {
            assert(v@ =~= file_name@.subrange(0, i + 1));
        }
        i = i + 1;
    }
    proof {
        assert(v@ =~= file_name@);
    }
    let j = match find_last_dot(&v) {
        Some(j) => j,
        None => 0,
    };
    let ext = if j == 0 {
        String::new()
    } else {
        chars_to_string(&v, j + 1, v.len())
    };
    let patch_str = "patch".to_owned();
    proof {
        reveal_strlit("patch");
    }
    let is_patch = ext == patch_str;
    if is_patch {
        let stem = subvec_chars(&v, 0, j);
        match find_last_dot(&stem) {
            Some(k) => {
                let mut out = chars_to_string(&stem, k + 1, stem.len());
                out.append(".");
                out.append(ext.as_str());
                proof {
                    assert(out@ =~= spec_ext_info(file_name@).0);
                }
                (out, true)
            },
            None => {
                proof {
                    assert(ext@ =~= spec_ext_info(file_name@).0);
                }
                (ext, true)
            },
        }
    } else {
        proof {
            assert(ext@ =~= spec_ext_info(file_name@).0);
        }
        (ext, false)
    }
}

/// The characters of the range `[start, end)` of `v`.
fn subvec_chars(v: &Vec<char>, start: usize, end: usize) -> (r: Vec<char>)
    requires
        start <= end,
        end <= v@.len(),
    ensures
        r@ == v@.subrange(start as int, end as int),
{
    let mut r: Vec<char> = Vec::new();
    let mut i: usize = start;
    while i < end
        invariant
            start <= i <= end,
            end <= v@.len(),
            r@ == v@.subrange(start as int, i as int),
        decreases end - i,
    {
        r.push(v[i]);
        proof {
            assert(r@ =~= v@.subrange(start as int, i + 1));
        }
        i = i + 1;
    }
    r
}

} // verus!
