//! Orchestration: walking a package's components and materializing every
//! payload entry into the modelled output tree.
//!
//! Error policy: only a container that cannot be opened or walked is
//! fatal. Everything below the container is absorbed: a missing root
//! component, a failed product enumeration (surfaced on the report for
//! diagnostics), a missing or unreadable payload, and a header read
//! failure end the affected scope; a materialization conflict skips the
//! one entry (counted on the component's report); a content read error
//! or early end-of-stream truncates the one entry. A run may therefore
//! succeed with an empty tree.
//!
//! The container and payload readers are outside collaborators, so which
//! entries a run yields cannot be pinned down; what the contracts here
//! say is that whatever entries came, the result is exactly their
//! materialization through the absorbing fold `spec_apply_all`,
//! component by component, with byte totals and conflict counts reported
//! per component and only safe relative paths recorded.

use vstd::prelude::*;
use crate::container::{
    component_from_payload, component_packages, header_admissible, open_package, package_flavor,
    package_info_summary, payload_finish, payload_read_chunk, payload_read_next, payload_reader,
    spec_header_admissible, xar_opens, ComponentInfo, Flavor, PackageSource, PayloadSource,
    PkgError,
};
use crate::filetype::FileType;
use crate::fstree::{FsTree, NodeView};
use crate::pipeline::{
    apply_entry, clamp_u64, lemma_apply_all_concat, lemma_apply_all_safe, lemma_apply_all_snoc,
    spec_all_paths_safe, spec_apply_all, EntryV, PayloadEntry,
};
use apple_flat_package::component_package::ComponentPackageReader;

verus! {

/// The marker directory under which a component payload archives its
/// files.
pub const PAYLOAD_ROOT: &'static str = "Payload";

/// Why an extraction run was aborted: only the container itself can be
/// fatal; every failure below it is absorbed.
#[derive(Clone, Debug, PartialEq, Eq)]
pub enum ExtractError {
    /// The package container could not be opened or parsed.
    Container(PkgError),
    /// The root component could not be read out of the container.
    Component(PkgError),
}

/// What one component contributed: its informational metadata, if any,
/// the file bytes written from its payload, and how many entries were
/// skipped because their path was occupied by a node of the other kind.
#[derive(Clone, Debug, PartialEq, Eq)]
pub struct ComponentReport {
    pub info: Option<ComponentInfo>,
    pub bytes_written: u64,
    pub conflicts: u64,
}

/// The outcome of a run: the materialized tree, one report per extracted
/// component in extraction order, and the enumeration failure of a
/// product package, if one was absorbed.
#[derive(Debug)]
pub struct ExtractReport {
    pub tree: FsTree,
    pub components: Vec<ComponentReport>,
    pub enumeration_error: Option<PkgError>,
}

/// One component's payload ran from tree `t0` to `t1`, materializing the
/// entry sequence `es` with conflicts absorbed, the report carrying the
/// run's saturated byte total and conflict count.
pub open spec fn spec_component_run(
    t0: Seq<(Seq<char>, NodeView)>,
    t1: Seq<(Seq<char>, NodeView)>,
    rep: ComponentReport,
    es: Seq<EntryV>,
    root: Seq<char>,
) -> bool {
    &&& t1 == spec_apply_all(t0, es, root).0
    &&& rep.bytes_written as int == clamp_u64(spec_apply_all(t0, es, root).1)
    &&& rep.conflicts as int == clamp_u64(spec_apply_all(t0, es, root).2)
}

/// The tree after materializing the component entry sequences of `ess`
/// in order, each from the tree the previous one left, conflicts
/// absorbed.
pub open spec fn spec_components_tree(
    t: Seq<(Seq<char>, NodeView)>,
    ess: Seq<Seq<EntryV>>,
    root: Seq<char>,
) -> Seq<(Seq<char>, NodeView)>
    decreases ess.len(),
{
    if ess.len() == 0 {
        t
    } else {
        spec_components_tree(spec_apply_all(t, ess[0], root).0, ess.drop_first(), root)
    }
}

/// The tree advanced from `t0` to `t1` by materializing the component
/// entry sequences of `ess` in order, all into the one flat tree (so a
/// later component's write shadows an earlier one's on a colliding
/// path), and the reports grew from `r0` to `r1` by one report per
/// sequence, in order, each carrying its run's saturated byte total and
/// conflict count.
pub open spec fn spec_components_extended(
    t0: Seq<(Seq<char>, NodeView)>,
    t1: Seq<(Seq<char>, NodeView)>,
    r0: Seq<ComponentReport>,
    r1: Seq<ComponentReport>,
    ess: Seq<Seq<EntryV>>,
    root: Seq<char>,
) -> bool {
    &&& t1 == spec_components_tree(t0, ess, root)
    &&& r1.len() == r0.len() + ess.len()
    &&& r1.take(r0.len() as int) == r0
    &&& forall|k: int|
        0 <= k < ess.len() ==> {
            let runk = spec_apply_all(spec_components_tree(t0, ess.take(k), root), ess[k], root);
            &&& (#[trigger] r1[r0.len() + k]).bytes_written as int == clamp_u64(runk.1)
            &&& r1[r0.len() + k].conflicts as int == clamp_u64(runk.2)
        }
}

/// Materializing one more component's entries appends that run to the
/// chain.
proof fn lemma_components_snoc(
    t: Seq<(Seq<char>, NodeView)>,
    ess: Seq<Seq<EntryV>>,
    xs: Seq<EntryV>,
    root: Seq<char>,
)
    ensures
        spec_components_tree(t, ess.push(xs), root) == spec_apply_all(
            spec_components_tree(t, ess, root),
            xs,
            root,
        ).0,
    decreases ess.len(),
{
    if ess.len() == 0 {
        assert(ess.push(xs)[0] == xs);
        assert(ess.push(xs).drop_first() =~= Seq::<Seq<EntryV>>::empty());
        let t1 = spec_apply_all(t, xs, root).0;
        assert(spec_components_tree(t, ess, root) == t);
        assert(spec_components_tree(t1, ess.push(xs).drop_first(), root) == t1);
        assert(spec_components_tree(t, ess.push(xs), root) == t1);
    } else {
        assert(ess.push(xs)[0] == ess[0]);
        assert(ess.push(xs).drop_first() =~= ess.drop_first().push(xs));
        let t1 = spec_apply_all(t, ess[0], root).0;
        assert(spec_components_tree(t, ess, root) == spec_components_tree(
            t1,
            ess.drop_first(),
            root,
        ));
        lemma_components_snoc(t1, ess.drop_first(), xs, root);
        assert(spec_components_tree(t, ess.push(xs), root) == spec_components_tree(
            t1,
            ess.drop_first().push(xs),
            root,
        ));
    }
}

/// A chain of component runs adds only safe paths.
proof fn lemma_components_safe(
    t: Seq<(Seq<char>, NodeView)>,
    ess: Seq<Seq<EntryV>>,
    root: Seq<char>,
)
    requires
        spec_all_paths_safe(t),
    ensures
        spec_all_paths_safe(spec_components_tree(t, ess, root)),
    decreases ess.len(),
{
    if ess.len() > 0 {
        lemma_apply_all_safe(t, ess[0], root);
        lemma_components_safe(spec_apply_all(t, ess[0], root).0, ess.drop_first(), root);
    }
}

/// A chain of component runs is one run of all their entries,
/// concatenated in component order: together with
/// `lemma_all_conflict_free` and the entry-level laws (replay
/// idempotence, last write wins), this lifts those laws to a whole
/// multi-component extraction.
pub proof fn lemma_components_flatten(
    t: Seq<(Seq<char>, NodeView)>,
    ess: Seq<Seq<EntryV>>,
    root: Seq<char>,
)
    ensures
        spec_apply_all(t, ess.flatten(), root).0 == spec_components_tree(t, ess, root),
    decreases ess.len(),
{
    if ess.len() == 0 {
        assert(ess.flatten() =~= Seq::<EntryV>::empty());
        assert(spec_apply_all(t, ess.flatten(), root) == (t, 0int, 0int));
    } else {
        let first = spec_apply_all(t, ess[0], root);
        lemma_components_flatten(first.0, ess.drop_first(), root);
        assert(ess.first() == ess[0]);
        assert(ess.flatten() == ess[0] + ess.drop_first().flatten());
        lemma_apply_all_concat(t, ess[0], ess.drop_first().flatten(), root);
        assert(spec_components_tree(t, ess, root) == spec_components_tree(
            first.0,
            ess.drop_first(),
            root,
        ));
    }
}

/// Extracts a flat package, read from a byte source, into a modelled
/// directory tree that the caller writes under an output root.
pub struct PkgExtractor {
    reader: Option<Vec<u8>>,
    output_dir: String,
}

impl PkgExtractor {
    /// The extractor still holds its byte source (it is consumed exactly
    /// once, when extraction begins).
    pub closed spec fn wf(&self) -> bool {
        self.reader is Some
    }

    /// The byte source the extractor holds, if it has not been consumed.
    pub closed spec fn spec_source(&self) -> Option<Seq<u8>> {
        match self.reader {
            Some(data) => Some(data@),
            None => None,
        }
    }

    /// The configured output root.
    pub closed spec fn spec_output_dir(&self) -> Seq<char> {
        self.output_dir@
    }

    /// Build an extractor over package bytes; without an explicit output
    /// directory the fixed default is used. No byte of the source is
    /// read yet.
    pub fn new(reader: Vec<u8>, output_dir: Option<String>) -> (s: Self)
        ensures
            s.wf(),
            s.spec_source() == Some(reader@),
            match output_dir {
                Some(d) => s.spec_output_dir() == d@,
                None => s.spec_output_dir() == "extracted_pkg"@,
            },
    {
        let dir = match output_dir {
            Some(d) => d,
            None => "extracted_pkg".to_owned(),
        };
        PkgExtractor { reader: Some(reader), output_dir: dir }
    }

    /// The output root this extractor was configured with.
    pub fn output_dir(&self) -> (d: &String)
        ensures
            d@ == self.spec_output_dir(),
    {
        &self.output_dir
    }

    /// Run the extraction: open the container, then extract the root
    /// component (component flavor) or every constituent component
    /// (product flavor) into one flat tree.
    ///
    /// Fatal is only the container itself: `Container` exactly when the
    /// source cannot be opened — its header declares sizes the parser
    /// cannot allocate, or the parser rejects it (`xar_opens` names that
    /// outcome) — and `Component` when the root component cannot be read
    /// out of an opened container. Everything below is absorbed, so a
    /// run may succeed with an empty tree. On success the report is
    /// exactly the materialization of the components' payload entry
    /// sequences, in component order, from an empty tree
    /// (`spec_components_extended`), with per-component byte totals and
    /// conflict counts, and every recorded path safe relative to the
    /// output root.
    pub fn extract(self) -> (r: Result<ExtractReport, ExtractError>)
        requires
            self.wf(),
        ensures
            ({
                let b = self.spec_source()->Some_0;
                r matches Err(ExtractError::Container(_)) <==> !(spec_header_admissible(b)
                    && xar_opens(b))
            }),
            match r {
                Ok(report) => {
                    &&& exists|ess: Seq<Seq<EntryV>>|
                        spec_components_extended(
                            Seq::empty(),
                            report.tree@,
                            Seq::empty(),
                            report.components@,
                            ess,
                            PAYLOAD_ROOT@,
                        )
                    &&& spec_all_paths_safe(report.tree@)
                },
                Err(e) => e matches ExtractError::Container(_) || e matches ExtractError::Component(
                    _,
                ),
            },
    {
        let ghost b = self.spec_source();
        let reader = match self.reader {
            Some(data) => data,
            None => {
                proof {
                    assert(false);
                }
                return Err(ExtractError::Container(PkgError { message: String::new() }));
            },
        };
        proof {
            assert(b == Some(reader@));
        }
        if !header_admissible(&reader) {
            return Err(
                ExtractError::Container(
                    PkgError { message: "container header declares impossible sizes".to_owned() },
                ),
            );
        }
        let mut tree = FsTree::new();
        let mut reports: Vec<ComponentReport> = Vec::new();
        let ghost t_init = tree@;
        let ghost r_init = reports@;
        let mut pkg = match open_package(reader) {
            Ok(p) => p,
            Err(e) => {
                return Err(ExtractError::Container(e));
            },
        };
        let enumeration_error: Option<PkgError> = match package_flavor(&pkg) {
            Flavor::Component => {
                match extract_root_component(&mut pkg, &mut tree, &mut reports) {
                    Ok(()) => None,
                    Err(e) => {
                        return Err(e);
                    },
                }
            },
            Flavor::Product => extract_product_package(&mut pkg, &mut tree, &mut reports),
        };
        proof {
            assert(exists|ess2: Seq<Seq<EntryV>>|
                spec_components_extended(t_init, tree@, r_init, reports@, ess2, PAYLOAD_ROOT@));
        }
        let ghost ess = choose|ess: Seq<Seq<EntryV>>|
            spec_components_extended(t_init, tree@, r_init, reports@, ess, PAYLOAD_ROOT@);
        let out = ExtractReport { tree, components: reports, enumeration_error };
        proof {
            assert(spec_all_paths_safe(t_init));
            lemma_components_safe(t_init, ess, PAYLOAD_ROOT@);
            assert(t_init == Seq::<(Seq<char>, NodeView)>::empty());
            assert(r_init == Seq::<ComponentReport>::empty());
            assert(spec_components_extended(
                Seq::empty(),
                out.tree@,
                Seq::empty(),
                out.components@,
                ess,
                PAYLOAD_ROOT@,
            ));
            assert(exists|ess2: Seq<Seq<EntryV>>|
                spec_components_extended(
                    Seq::empty(),
                    out.tree@,
                    Seq::empty(),
                    out.components@,
                    ess2,
                    PAYLOAD_ROOT@,
                ));
            assert(spec_all_paths_safe(out.tree@));
        }
        Ok(out)
    }
}

/// Extract the single root component of a component-flavor package; a
/// package without one contributes nothing (not an error), while a
/// failure to read it out of the container is fatal.
fn extract_root_component(
    pkg: &mut PackageSource,
    tree: &mut FsTree,
    reports: &mut Vec<ComponentReport>,
) -> (r: Result<(), ExtractError>)
    ensures
        match r {
            Ok(()) => exists|ess: Seq<Seq<EntryV>>|
                spec_components_extended(
                    old(tree)@,
                    final (tree)@,
                    old(reports)@,
                    final (reports)@,
                    ess,
                    PAYLOAD_ROOT@,
                ) && ess.len() <= 1,
            Err(e) => e matches ExtractError::Component(_),
        },
{
    let ghost t0 = tree@;
    let ghost r0 = reports@;
    match crate::container::root_component(pkg) {
        Ok(Some(component)) => {
            let report = extract_component_package(&component, tree);
            proof {
                assert(exists|es2: Seq<EntryV>|
                    spec_component_run(t0, tree@, report, es2, PAYLOAD_ROOT@));
            }
            let ghost es = choose|es: Seq<EntryV>|
                spec_component_run(t0, tree@, report, es, PAYLOAD_ROOT@);
            let ghost repv = report;
            reports.push(report);
            proof {
                let ess = seq![es];
                assert(ess[0] == es);
                assert(ess.drop_first() =~= Seq::<Seq<EntryV>>::empty());
                assert(ess.take(0) =~= Seq::<Seq<EntryV>>::empty());
                assert(reports@ == r0.push(repv));
                assert(reports@.take(r0.len() as int) =~= r0);
                assert(reports@[r0.len() as int] == repv);
                assert(spec_components_tree(t0, ess.take(0), PAYLOAD_ROOT@) == t0);
                assert(spec_components_tree(
                    spec_apply_all(t0, es, PAYLOAD_ROOT@).0,
                    Seq::<Seq<EntryV>>::empty(),
                    PAYLOAD_ROOT@,
                ) == spec_apply_all(t0, es, PAYLOAD_ROOT@).0);
                assert(spec_components_tree(t0, ess, PAYLOAD_ROOT@) == tree@);
                assert(spec_components_extended(t0, tree@, r0, reports@, ess, PAYLOAD_ROOT@));
                assert(exists|ess2: Seq<Seq<EntryV>>|
                    spec_components_extended(t0, tree@, r0, reports@, ess2, PAYLOAD_ROOT@)
                        && ess2.len() <= 1);
            }
            Ok(())
        },
        Ok(None) => {
            proof {
                let ess = Seq::<Seq<EntryV>>::empty();
                assert(reports@.take(r0.len() as int) =~= r0);
                assert(spec_components_extended(t0, tree@, r0, reports@, ess, PAYLOAD_ROOT@));
                assert(exists|ess2: Seq<Seq<EntryV>>|
                    spec_components_extended(t0, tree@, r0, reports@, ess2, PAYLOAD_ROOT@)
                        && ess2.len() <= 1);
            }
            Ok(())
        },
        Err(e) => Err(ExtractError::Component(e)),
    }
}

/// Extract every constituent component of a product-flavor package into
/// the same flat tree, in enumeration order, so that a later component's
/// write shadows an earlier one's on a colliding path; a failed
/// enumeration extracts nothing and is returned for diagnostics, not an
/// error.
fn extract_product_package(
    pkg: &mut PackageSource,
    tree: &mut FsTree,
    reports: &mut Vec<ComponentReport>,
) -> (enum_err: Option<PkgError>)
    ensures
        exists|ess: Seq<Seq<EntryV>>|
            spec_components_extended(
                old(tree)@,
                final (tree)@,
                old(reports)@,
                final (reports)@,
                ess,
                PAYLOAD_ROOT@,
            ),
        enum_err is Some ==> final (tree)@ == old(tree)@ && final (reports)@ == old(reports)@,
{
    let ghost t0 = tree@;
    let ghost r0 = reports@;
    match component_packages(pkg) {
        Ok(components) => {
            let ghost mut ess: Seq<Seq<EntryV>> = Seq::empty();
            let mut i: usize = 0;
            while i < components.len()
                invariant
                    t0 == old(tree)@,
                    r0 == old(reports)@,
                    tree@ == spec_components_tree(t0, ess, PAYLOAD_ROOT@),
                    reports@.len() == r0.len() + ess.len(),
                    reports@.take(r0.len() as int) == r0,
                    forall|k: int|
                        0 <= k < ess.len() ==> {
                            let runk = spec_apply_all(
                                spec_components_tree(t0, ess.take(k), PAYLOAD_ROOT@),
                                ess[k],
                                PAYLOAD_ROOT@,
                            );
                            &&& (#[trigger] reports@[r0.len() + k]).bytes_written as int
                                == clamp_u64(runk.1)
                            &&& reports@[r0.len() + k].conflicts as int == clamp_u64(runk.2)
                        },
                decreases components.len() - i,
            {
                let ghost tpre = tree@;
                let ghost rpre = reports@;
                let report = extract_component_package(&components[i], tree);
                proof {
                    assert(exists|es2: Seq<EntryV>|
                        spec_component_run(tpre, tree@, report, es2, PAYLOAD_ROOT@));
                }
                let ghost es = choose|es: Seq<EntryV>|
                    spec_component_run(tpre, tree@, report, es, PAYLOAD_ROOT@);
                let ghost repv = report;
                reports.push(report);
                proof {
                    lemma_components_snoc(t0, ess, es, PAYLOAD_ROOT@);
                    let ess2 = ess.push(es);
                    assert(ess2[ess.len() as int] == es);
                    assert(ess2.take(ess.len() as int) =~= ess);
                    assert(reports@ == rpre.push(repv));
                    assert(reports@.take(r0.len() as int) =~= r0);
                    assert forall|k: int| 0 <= k < ess2.len() implies {
                        let runk = spec_apply_all(
                            spec_components_tree(t0, ess2.take(k), PAYLOAD_ROOT@),
                            ess2[k],
                            PAYLOAD_ROOT@,
                        );
                        &&& (#[trigger] reports@[r0.len() + k]).bytes_written as int == clamp_u64(
                            runk.1,
                        )
                        &&& reports@[r0.len() + k].conflicts as int == clamp_u64(runk.2)
                    } by {
                        if k < ess.len() {
                            assert(ess2.take(k) =~= ess.take(k));
                            assert(ess2[k] == ess[k]);
                            assert(reports@[r0.len() + k] == rpre[r0.len() + k]);
                        } else {
                            assert(k == ess.len());
                            assert(reports@[r0.len() + k] == repv);
                        }
                    }
                    ess = ess2;
                }
                i = i + 1;
            }
            proof {
                assert(spec_components_extended(t0, tree@, r0, reports@, ess, PAYLOAD_ROOT@));
                assert(exists|ess2: Seq<Seq<EntryV>>|
                    spec_components_extended(t0, tree@, r0, reports@, ess2, PAYLOAD_ROOT@));
            }
            None
        },
        Err(e) => {
            proof {
                let ess = Seq::<Seq<EntryV>>::empty();
                assert(reports@.take(r0.len() as int) =~= r0);
                assert(spec_components_extended(t0, tree@, r0, reports@, ess, PAYLOAD_ROOT@));
                assert(exists|ess2: Seq<Seq<EntryV>>|
                    spec_components_extended(t0, tree@, r0, reports@, ess2, PAYLOAD_ROOT@));
            }
            Some(e)
        },
    }
}

/// Extract one component: read its informational metadata, open its
/// payload (a component without one, or with one that cannot be framed,
/// contributes nothing), and attempt each payload entry in order,
/// finalizing every entry's stream before the next. A header read
/// failure or a failure to finalize a stream ends the iteration early;
/// a conflicting entry is skipped and counted. The tree, byte total and
/// conflict count relate only to the attempted entries — the metadata
/// flows into the report's `info` field and nowhere else.
fn extract_component_package(component: &ComponentPackageReader, tree: &mut FsTree) -> (rep:
    ComponentReport)
    ensures
        exists|es: Seq<EntryV>| spec_component_run(old(tree)@, final (tree)@, rep, es, PAYLOAD_ROOT@),
{
    let info = package_info_summary(component);
    let mut total: u64 = 0;
    let mut conflicts: u64 = 0;
    let ghost t0 = tree@;
    let ghost mut es: Seq<EntryV> = Seq::empty();
    let ghost mut sum: int = 0;
    let ghost mut cnt: int = 0;
    proof {
        assert(spec_apply_all(t0, es, PAYLOAD_ROOT@) == (t0, 0int, 0int));
    }
    match payload_reader(component) {
        Ok(Some(mut payload)) => {
            let mut fuel: u64 = u64::MAX;
            while fuel > 0
                invariant
                    t0 == old(tree)@,
                    spec_apply_all(t0, es, PAYLOAD_ROOT@) == (tree@, sum, cnt),
                    sum >= 0,
                    cnt >= 0,
                    total as int == clamp_u64(sum),
                    conflicts as int == clamp_u64(cnt),
                decreases fuel,
            {
                fuel = fuel - 1;
                match payload_read_next(&mut payload) {
                    Ok(Some(header)) => {
                        let is_file = match FileType::from_mode(header.mode) {
                            FileType::Regular => true,
                            _ => false,
                        };
                        let content: Vec<u8> = if is_file && header.file_size > 0 {
                            read_entry_content(&mut payload, header.file_size)
                        } else {
                            Vec::new()
                        };
                        let entry = PayloadEntry {
                            name: header.name,
                            size: header.file_size,
                            mode: header.mode,
                            content,
                        };
                        proof {
                            lemma_apply_all_snoc(t0, es, entry@, PAYLOAD_ROOT@);
                        }
                        match apply_entry(tree, &entry, PAYLOAD_ROOT) {
                            Ok(written) => {
                                proof {
                                    es = es.push(entry@);
                                    sum = sum + written;
                                }
                                if written > u64::MAX - total {
                                    total = u64::MAX;
                                } else {
                                    total = total + written;
                                }
                            },
                            Err(_) => {
                                // The conflicting entry is skipped; any parent
                                // directories it created stand, as the model
                                // records.
                                proof {
                                    es = es.push(entry@);
                                    cnt = cnt + 1;
                                }
                                if conflicts < u64::MAX {
                                    conflicts = conflicts + 1;
                                }
                            },
                        }
                        match payload_finish(&mut payload) {
                            Ok(()) => {},
                            Err(_) => {
                                break ;
                            },
                        }
                    },
                    Ok(None) => {
                        break ;
                    },
                    Err(_) => {
                        break ;
                    },
                }
            }
        },
        Ok(None) => {},
        Err(_) => {},
    }
    let out = ComponentReport { info, bytes_written: total, conflicts };
    proof {
        assert(spec_component_run(t0, tree@, out, es, PAYLOAD_ROOT@));
        assert(exists|es2: Seq<EntryV>| spec_component_run(t0, tree@, out, es2, PAYLOAD_ROOT@));
    }
    out
}

/// Copy up to `size` bytes of the current entry's body through a bounded
/// intermediate buffer; an early end-of-stream or a read error ends the
/// copy for this entry, keeping the bytes read so far.
fn read_entry_content(payload: &mut PayloadSource, size: u64) -> (content: Vec<u8>)
    ensures
        content@.len() <= size,
{
    let mut content: Vec<u8> = Vec::new();
    let mut remaining: u64 = size;
    while remaining > 0
        invariant
            content@.len() + remaining == size,
        decreases remaining,
    {
        let to_read: usize = if remaining < 8192 {
            remaining as usize
        } else {
            8192
        };
        match payload_read_chunk(payload, to_read) {
            Ok(mut chunk) => {
                if chunk.len() == 0 {
                    break ;
                }
                let n = chunk.len();
                content.append(&mut chunk);
                remaining = remaining - n as u64;
            },
            Err(_) => {
                break ;
            },
        }
    }
    content
}

/// Extract one raw `Payload` archive (the bytes of a component's payload
/// file) into the tree: the single-component pipeline without a
/// container around it.
pub fn extract_payload_archive(payload: Vec<u8>, tree: &mut FsTree) -> (rep: ComponentReport)
    ensures
        exists|es: Seq<EntryV>| spec_component_run(old(tree)@, final (tree)@, rep, es, PAYLOAD_ROOT@),
{
    match component_from_payload(payload) {
        Ok(component) => extract_component_package(&component, tree),
        Err(_) => {
            proof {
                assert(false);
            }
            ComponentReport { info: None, bytes_written: 0, conflicts: 0 }
        },
    }
}

} // verus!
