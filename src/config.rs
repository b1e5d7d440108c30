use vstd::prelude::*;

verus! {

/// A resource-section descriptor of the tool configuration: a section label,
/// a sub-label, and two fields kept for collaborators.
pub struct ResourceSection {
    pub section: String,
    pub sub: String,
    pub aux_a: String,
    pub aux_b: String,
}

/// Where a tracked repository lives and what it follows.
pub struct RepoSpec {
    pub path: String,
    pub url: String,
    pub branch: String,
}

/// The channel used when the tool configuration names none.
pub open spec fn default_channel() -> Seq<char> {
    "release"@
}

/// The build channel: the configured selector, or `release` when absent.
pub fn build_channel(selector: Option<&str>) -> (r: String)
    ensures
        r@ == match selector {
            Some(s) => s@,
            None => default_channel(),
        },
{
    match selector {
        Some(s) => s.to_owned(),
        None => {
            proof {
                reveal_strlit("release");
            }
            "release".to_owned()
        },
    }
}

/// The navigable label of each resource section: its label followed by its
/// sub-label, in configuration order.
pub fn resource_labels(sections: &Vec<ResourceSection>) -> (r: Vec<String>)
    ensures
        r.len() == sections.len(),
        forall|i: int| 0 <= i < r.len() ==> r@[i]@ == sections@[i].section@ + sections@[i].sub@,
{
    let mut out: Vec<String> = Vec::new();
    let mut i: usize = 0;
    while i < sections.len()
        invariant
            i <= sections.len(),
            out.len() == i,
            forall|k: int| 0 <= k < i ==> out@[k]@ == sections@[k].section@ + sections@[k].sub@,
        decreases sections.len() - i,
    {
        let label = sections[i].section.clone().concat(sections[i].sub.as_str());
        out.push(label);
        i = i + 1;
    }
    out
}

/// A repository record for `spec`, with no clone known yet.
pub fn repository_for(spec: &RepoSpec) -> (r: crate::sync::LocalRepository)
    ensures
        r.path == spec.path,
        r.url == spec.url,
        r.branch == spec.branch,
        r.head is None,
{
    crate::sync::LocalRepository {
        path: spec.path.clone(),
        url: spec.url.clone(),
        branch: spec.branch.clone(),
        head: None,
    }
}

} // verus!
