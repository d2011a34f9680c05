use vstd::prelude::*;

use crate::error::{Error, Usage, Warning};
use crate::feature::is_on;

verus! {

/// One logical unit to upload: a name and its content.
#[derive(Debug)]
pub struct UploadFile {
    pub name: String,
    pub content: String,
}

impl UploadFile {
    pub fn new(name: String, content: String) -> (r: UploadFile)
        ensures
            r.name == name,
            r.content == content,
    {
        UploadFile { name, content }
    }
}

/// The outcome of holding file sizes against a limit: without force, the
/// first file over the limit stops the upload; with force, each such file
/// is reported, in order.
pub open spec fn limit_outcome(files: Seq<(Seq<char>, u64)>, limit: u64, force: bool) -> Result<
    Seq<(Seq<char>, u64)>,
    (Seq<char>, u64),
>
    decreases files.len(),
{
    if files.len() == 0 {
        Ok(Seq::empty())
    } else {
        let rest = limit_outcome(files.drop_first(), limit, force);
        if files[0].1 > limit {
            if force {
                match rest {
                    Ok(ws) => Ok(seq![files[0]] + ws),
                    Err(e) => Err(e),
                }
            } else {
                Err(files[0])
            }
        } else {
            rest
        }
    }
}

pub open spec fn sizes_view(files: Seq<(String, u64)>) -> Seq<(Seq<char>, u64)> {
    files.map_values(|f: (String, u64)| (f.0@, f.1))
}

pub open spec fn over_limit_warning(w: Warning, f: (Seq<char>, u64), limit: u64) -> bool {
    w matches Warning::OverLimit { name, size, limit: l } && name@ == f.0 && size == f.1 && l
        == limit
}

/// Holds the sizes of the files to upload, known before their contents are
/// read, against the configured limit; none means no limit.
pub fn check_limit(files: &Vec<(String, u64)>, limit: Option<u64>, force: Option<bool>) -> (r:
    Result<Vec<Warning>, Error>)
    ensures
        limit is None ==> (r matches Ok(v) && v@.len() == 0),
        limit matches Some(l) ==> match limit_outcome(sizes_view(files@), l, is_on(force)) {
            Ok(ws) => r matches Ok(v) && v@.len() == ws.len() && forall|j: int|
                0 <= j < ws.len() ==> over_limit_warning(#[trigger] v@[j], ws[j], l),
            Err(f) => r matches Err(Error::SizeLimitExceeded { name, size, limit: l2 })
                && name@ == f.0 && size == f.1 && l2 == l,
        },
{
    let lim = match limit {
        Some(l) => l,
        None => {
            return Ok(Vec::new());
        },
    };
    let forced = match force {
        Some(b) => b,
        None => false,
    };
    let ghost fv = sizes_view(files@);
    let ghost total = limit_outcome(fv, lim, forced);
    let mut out: Vec<Warning> = Vec::new();
    let ghost mut seen: Seq<(Seq<char>, u64)> = Seq::empty();
    let mut i: usize = 0;
    proof {
        assert(fv.subrange(0, fv.len() as int) =~= fv);
        match total {
            Ok(ws) => {
                assert(seen + ws =~= ws);
            },
            Err(e) => {},
        }
    }
    while i < files.len()
        invariant
            i <= files@.len(),
            fv == sizes_view(files@),
            fv.len() == files@.len(),
            forced == is_on(force),
            limit == Some(lim),
            total == limit_outcome(fv, lim, forced),
            out@.len() == seen.len(),
            forall|j: int| 0 <= j < seen.len() ==> over_limit_warning(#[trigger] out@[j], seen[j], lim),
            match limit_outcome(fv.subrange(i as int, fv.len() as int), lim, forced) {
                Ok(rest) => total == Ok::<Seq<(Seq<char>, u64)>, (Seq<char>, u64)>(seen + rest),
                Err(e) => total == Err::<Seq<(Seq<char>, u64)>, (Seq<char>, u64)>(e),
            },
        decreases files@.len() - i,
    {
        let ghost tail = fv.subrange(i as int, fv.len() as int);
        assert(tail.drop_first() =~= fv.subrange(i + 1, fv.len() as int));
        let size = files[i].1;
        assert(tail[0] == (files@[i as int].0@, size));
        if size > lim {
            if !forced {
                assert(limit_outcome(tail, lim, forced) == Err::<Seq<(Seq<char>, u64)>, (Seq<char>, u64)>(tail[0]));
                return Err(
                    Error::SizeLimitExceeded { name: files[i].0.clone(), size, limit: lim },
                );
            }
            out.push(Warning::OverLimit { name: files[i].0.clone(), size, limit: lim });
            proof {
                let old_seen = seen;
                seen = seen.push(tail[0]);
                match limit_outcome(tail.drop_first(), lim, forced) {
                    Ok(rest) => {
                        assert(old_seen + (seq![tail[0]] + rest) =~= seen + rest);
                    },
                    Err(e) => {},
                }
            }
        }
        i = i + 1;
    }
    proof {
        assert(seen + Seq::<(Seq<char>, u64)>::empty() =~= seen);
    }
    Ok(out)
}

/// Applies a name override: with one file it renames that file; with more
/// it is refused; without an override the files stay as they are.
pub fn apply_name(files: Vec<UploadFile>, name: Option<String>) -> (r: Result<Vec<UploadFile>, Error>)
    ensures
        name is None ==> r == Ok::<Vec<UploadFile>, Error>(files),
        name matches Some(n) ==> (if files@.len() == 1 {
            r matches Ok(v) && v@.len() == 1 && v@[0].name == n && v@[0].content
                == files@[0].content
        } else {
            r == Err::<Vec<UploadFile>, Error>(Error::Usage(Usage::NameWithManyFiles))
        }),
{
    match name {
        None => Ok(files),
        Some(n) => {
            if files.len() == 1 {
                let mut files = files;
                let f = files.pop().unwrap();
                Ok(vec![UploadFile { name: n, content: f.content }])
            } else {
                Err(Error::Usage(Usage::NameWithManyFiles))
            }
        },
    }
}

} // verus!
