use crate::markdown::Sourcepos;
use vstd::prelude::*;

verus! {

/// The groups that rules belong to, by what they look at.
#[derive(Debug, Clone, Copy, PartialEq, Eq, Structural)]
pub enum Tag {
    Bullet,
    Code,
    Indentation,
    Links,
    Ol,
    Ul,
    Url,
    Whitespace,
}

/// What a rule is called and what it is about.
#[derive(Debug)]
pub struct Metadata {
    pub name: &'static str,
    pub description: &'static str,
    pub tags: Vec<Tag>,
    pub aliases: Vec<&'static str>,
}

/// A place where a document breaks a rule.
#[derive(Debug, PartialEq, Eq)]
pub struct Violation {
    /// The document the violation is in.
    pub path: String,
    /// The name of the rule that is broken.
    pub name: &'static str,
    /// Where in the document.
    pub position: Sourcepos,
}

/// `vs` reports, in order, a violation of the rule called `name` in the
/// document at `path` at each of `positions`.
pub open spec fn reports(
    vs: Seq<Violation>,
    path: Seq<char>,
    name: Seq<char>,
    positions: Seq<Sourcepos>,
) -> bool {
    &&& vs.len() == positions.len()
    &&& forall|i: int|
        0 <= i < vs.len() ==> {
            &&& #[trigger] vs[i].path@ == path
            &&& vs[i].name@ == name
            &&& vs[i].position == positions[i]
        }
}

/// A violation of the rule called `name` at `position` in the document at
/// `path`.
pub fn violation(path: String, name: &'static str, position: Sourcepos) -> (v: Violation)
    ensures
        v.path@ == path@,
        v.name@ == name@,
        v.position == position,
{
    Violation { path, name, position }
}

/// One violation of the rule called `name` in the document at `path` at each
/// of `positions`, in order.
pub fn violations_at(path: &String, name: &'static str, positions: &Vec<Sourcepos>) -> (vs: Vec<
    Violation,
>)
    ensures
        reports(vs@, path@, name@, positions@),
{
    let mut vs: Vec<Violation> = Vec::new();
    for i in 0..positions.len()
        invariant
            reports(vs@, path@, name@, positions@.take(i as int)),
    {
        let ghost before = vs@;
        vs.push(violation(path.clone(), name, positions[i]));
        proof {
            let ps = positions@.take(i + 1);
            assert forall|j: int| 0 <= j < vs@.len() implies {
                &&& #[trigger] vs@[j].path@ == path@
                &&& vs@[j].name@ == name@
                &&& vs@[j].position == ps[j]
            } by {
                if j < before.len() {
                    assert(vs@[j] == before[j]);
                    assert(before[j].path@ == path@);
                    assert(ps[j] == positions@.take(i as int)[j]);
                }
            }
        }
    }
    proof {
        assert(positions@.take(positions@.len() as int) =~= positions@);
    }
    vs
}

} // verus!
