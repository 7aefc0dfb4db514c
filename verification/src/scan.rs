//! The traversal: walks the tree under a root directory to the
//! configured depth, prunes excluded directory names before stepping
//! into them, and records the first matching rule's label for every
//! surviving directory.

use vstd::prelude::*;

use crate::config::{contains_string, contains_text, ScanConfig};
use crate::paths::{
    candidate_path, has_slash, join_all, join_path, join_texts, last_segment, own_name, scan_chain,
    valid_step, SafePath,
};
use crate::results::ScanResults;
use crate::rules::{evaluate_rules, is_rule_label, lemma_label_is_rule_name};

verus! {

/// One directory entry as the filesystem reports it: its base name
/// (when that name is valid text) and whether it is a directory.
pub struct DirEntryInfo {
    pub name: Option<String>,
    pub is_dir: bool,
}

/// Relies on walkdir::WalkDir with min_depth(1) and max_depth(1): the
/// walk yields the entries directly inside `path` (none when `path` is
/// not a readable directory), each carrying its base file name and its
/// file type, without following symbolic links. Entries the walk
/// reports as errors are skipped; a name that is not valid text comes
/// back as `None`. The result depends on the filesystem at the moment
/// of the call, so nothing is promised of it.
#[verifier::external_body]
fn list_dir(path: &String) -> (entries: Vec<DirEntryInfo>) {
    walkdir::WalkDir::new(path)
        .min_depth(1)
        .max_depth(1)
        .into_iter()
        .filter_map(|e| e.ok())
        .map(
            |e| DirEntryInfo {
                name: e.file_name().to_str().map(|s| s.to_string()),
                is_dir: e.file_type().is_dir(),
            },
        )
        .collect()
}

/// The entry names visible as text, in order: the base names of the
/// entries, skipping those whose name is not valid text.
pub open spec fn present_names(entries: Seq<DirEntryInfo>) -> Seq<String>
    decreases entries.len(),
{
    if entries.len() == 0 {
        Seq::empty()
    } else {
        match entries.last().name {
            Some(n) => present_names(entries.drop_last()).push(n),
            None => present_names(entries.drop_last()),
        }
    }
}

/// Collects the entry names that are valid text; these are the names a
/// candidate directory is judged by.
pub fn visible_names(entries: &Vec<DirEntryInfo>) -> (names: Vec<String>)
    ensures
        names@ == present_names(entries@),
{
    let mut names: Vec<String> = Vec::new();
    let mut i: usize = 0;
    while i < entries.len()
        invariant
            0 <= i <= entries@.len(),
            names@ == present_names(entries@.subrange(0, i as int)),
        decreases entries@.len() - i,
    {
        proof {
            assert(entries@.subrange(0, i + 1).drop_last() =~= entries@.subrange(0, i as int));
            assert(entries@.subrange(0, i + 1).last() == entries@[i as int]);
        }
        match &entries[i].name {
            Some(n) => names.push(n.clone()),
            None => (),
        }
        i += 1;
    }
    proof {
        assert(entries@.subrange(0, entries@.len() as int) =~= entries@);
    }
    names
}

/// Whether the traversal steps from a directory at `depth` into this
/// entry: only into directories, only while the depth bound allows
/// another level, and never into an excluded or separator-bearing or
/// empty or non-text name.
pub fn should_descend(entry: &DirEntryInfo, config: &ScanConfig, depth: usize) -> (r: bool)
    ensures
        r == match entry.name {
            Some(n) => entry.is_dir && depth < config.max_search_depth && valid_step(
                config.exclude_path_components@,
                n@,
            ),
            None => false,
        },
{
    match &entry.name {
        Some(name) => entry.is_dir && depth < config.max_search_depth && !name.as_str().is_empty()
            && !has_slash(name) && !contains_string(&config.exclude_path_components, name),
        None => false,
    }
}

/// How a scan under `root` may change the results: entries already
/// recorded stay recorded, and every new or relabelled entry is a
/// directory within the configured depth bound, reached along a chain
/// of non-excluded names, carrying the name of one of the configured
/// rules.
pub open spec fn scan_extends(
    before: Map<Seq<char>, Seq<char>>,
    after: Map<Seq<char>, Seq<char>>,
    root: Seq<char>,
    config: &ScanConfig,
) -> bool {
    &&& forall|k: Seq<char>| before.contains_key(k) ==> #[trigger] after.contains_key(k)
    &&& forall|k: Seq<char>|
        #[trigger] after.contains_key(k) ==> {
            ||| (before.contains_key(k) && after[k] == before[k])
            ||| {
                &&& candidate_path(
                    root,
                    config.exclude_path_components@,
                    config.max_search_depth as nat,
                    k,
                )
                &&& is_rule_label(config.workspace_definitions@, after[k])
            }
        }
}

/// Two successive admissible changes make one admissible change.
proof fn lemma_scan_extends_trans(
    a: Map<Seq<char>, Seq<char>>,
    b: Map<Seq<char>, Seq<char>>,
    c: Map<Seq<char>, Seq<char>>,
    root: Seq<char>,
    config: &ScanConfig,
)
    requires
        scan_extends(a, b, root, config),
        scan_extends(b, c, root, config),
    ensures
        scan_extends(a, c, root, config),
{
}

/// Scans the directory `path`, which stands `depth` levels below the
/// root on the chain `segs`, and its subtree.
fn scan_dir(
    path: &String,
    depth: usize,
    config: &ScanConfig,
    workspaces: &mut ScanResults,
    Ghost(root): Ghost<Seq<char>>,
    Ghost(segs): Ghost<Seq<Seq<char>>>,
)
    requires
        depth <= config.max_search_depth,
        segs.len() <= depth,
        path@ == join_all(root, segs),
        forall|i: int|
            0 <= i < segs.len() ==> valid_step(config.exclude_path_components@, #[trigger] segs[i]),
    ensures
        scan_extends(old(workspaces)@, final(workspaces)@, root, config),
    decreases config.max_search_depth - depth,
{
    let entries = list_dir(path);
    let present = visible_names(&entries);
    match evaluate_rules(&config.workspace_definitions, &present) {
        Some(label) => {
            let owned = label.clone();
            proof {
                lemma_label_is_rule_name(config.workspace_definitions@, present@, label@);
                assert(scan_chain(root, config.exclude_path_components@, segs, path@));
                assert(candidate_path(
                    root,
                    config.exclude_path_components@,
                    config.max_search_depth as nat,
                    path@,
                ));
            }
            workspaces.insert(SafePath::new(path.as_str()), owned);
        }
        None => (),
    }
    if depth < config.max_search_depth {
        let mut j: usize = 0;
        while j < entries.len()
            invariant
                0 <= j <= entries@.len(),
                depth < config.max_search_depth,
                segs.len() <= depth,
                path@ == join_all(root, segs),
                forall|i2: int|
                    0 <= i2 < segs.len() ==> valid_step(
                        config.exclude_path_components@,
                        #[trigger] segs[i2],
                    ),
                scan_extends(old(workspaces)@, workspaces@, root, config),
            decreases entries@.len() - j,
        {
            match &entries[j].name {
                Some(name) => {
                    if should_descend(&entries[j], config, depth) {
                        let child = join_path(path, name);
                        proof {
                            assert(valid_step(config.exclude_path_components@, name@));
                            assert(segs.push(name@).drop_last() =~= segs);
                            assert(join_all(root, segs.push(name@)) == join_texts(path@, name@));
                            assert forall|i2: int| 0 <= i2 < segs.push(name@).len() implies
                                valid_step(
                                    config.exclude_path_components@,
                                    #[trigger] segs.push(name@)[i2],
                                ) by {
                                if i2 < segs.len() {
                                    assert(segs.push(name@)[i2] == segs[i2]);
                                }
                            }
                        }
                        let ghost mid = workspaces@;
                        scan_dir(
                            &child,
                            depth + 1,
                            config,
                            workspaces,
                            Ghost(root),
                            Ghost(segs.push(name@)),
                        );
                        proof {
                            lemma_scan_extends_trans(
                                old(workspaces)@,
                                mid,
                                workspaces@,
                                root,
                                config,
                            );
                        }
                    }
                },
                None => (),
            }
            j += 1;
        }
    }
}

/// Scans the tree under `dir` and records, for every directory within
/// `max_search_depth` levels that is not pruned by name exclusion, the
/// name of the first rule it satisfies.
///
/// Everything already recorded stays; every entry this scan adds or
/// relabels lies within the depth bound below `dir` on a chain of
/// non-excluded directory names and carries the name of a configured
/// rule; and a root whose own name is excluded leaves the results
/// untouched.
pub fn find_workspaces_in_dir(dir: &str, config: &ScanConfig, workspaces: &mut ScanResults)
    ensures
        forall|k: Seq<char>|
            old(workspaces)@.contains_key(k) ==> #[trigger] final(workspaces)@.contains_key(k),
        forall|k: Seq<char>|
            #[trigger] final(workspaces)@.contains_key(k) ==> {
                ||| (old(workspaces)@.contains_key(k) && final(workspaces)@[k] == old(
                    workspaces,
                )@[k])
                ||| {
                    &&& !contains_text(config.exclude_path_components@, own_name(dir@))
                    &&& candidate_path(
                        dir@,
                        config.exclude_path_components@,
                        config.max_search_depth as nat,
                        k,
                    )
                    &&& is_rule_label(config.workspace_definitions@, final(workspaces)@[k])
                }
            },
        contains_text(config.exclude_path_components@, own_name(dir@)) ==> final(workspaces)@
            == old(workspaces)@,
{
    let name = last_segment(dir);
    if contains_string(&config.exclude_path_components, &name) {
        return ;
    }
    let root = dir.to_owned();
    proof {
        assert(join_all(dir@, Seq::<Seq<char>>::empty()) == dir@);
    }
    scan_dir(&root, 0, config, workspaces, Ghost(dir@), Ghost(Seq::empty()));
}

} // verus!
