//! The batch dispatcher's decision core: where each task's output goes, and
//! what one batch, worked through task by task, decides to write.
//!
//! The unverified shell reads each source file, performs the writes this
//! module plans, and forwards each completion payload; fan-out across
//! workers changes only the order in which payloads are delivered.

use vstd::prelude::*;
use crate::pathname::{
    joined, parent_of, file_name_of, replaced_ext, stem_of, ext_of, name_has_ext, dir_prefix_of,
    path_views, lemma_last_index_of, lemma_file_name_no_slash, lemma_joined_file_name,
    lemma_joined_starts,
    lemma_replaced_ext_shape, lemma_replace_in_joined, join, parent_dir, file_name, replace_ext,
};
use crate::resolve::{
    resolve_ok, resolved_path, candidate_of, get_available_file_path, lemma_resolve_exists,
    lemma_candidate_shape,
};
use crate::scan::{ImageInputData, ImageInputDataView};
use crate::codec::{rgba_of, webp_encoding_of, transcode_succeeds, compress_and_encode_image};

verus! {

/// One unit of work handed to the dispatcher: the source's scan metadata,
/// its bytes as read from disk, and its on-disk byte count.
pub struct LoadedTask {
    pub input: ImageInputData,
    pub bytes: Vec<u8>,
    pub disk_size: usize,
}

pub struct LoadedTaskView {
    pub input: ImageInputDataView,
    pub bytes: Seq<u8>,
    pub disk_size: nat,
}

impl View for LoadedTask {
    type V = LoadedTaskView;

    open spec fn view(&self) -> LoadedTaskView {
        LoadedTaskView { input: self.input@, bytes: self.bytes@, disk_size: self.disk_size as nat }
    }
}

/// The completion payload for one finished task.
pub struct ImageResultData {
    pub file_name: String,
    pub original_size: usize,
    pub compressed_size: usize,
}

pub struct ImageResultDataView {
    pub file_name: Seq<char>,
    pub original_size: nat,
    pub compressed_size: nat,
}

impl View for ImageResultData {
    type V = ImageResultDataView;

    open spec fn view(&self) -> ImageResultDataView {
        ImageResultDataView {
            file_name: self.file_name@,
            original_size: self.original_size as nat,
            compressed_size: self.compressed_size as nat,
        }
    }
}

/// One write the dispatcher decided on: the collision-free location, the
/// encoded bytes, and the completion payload to emit once written.
pub struct PlannedWrite {
    pub path: String,
    pub data: Vec<u8>,
    pub result: ImageResultData,
}

pub struct PlannedWriteView {
    pub path: Seq<char>,
    pub data: Seq<u8>,
    pub result: ImageResultDataView,
}

impl View for PlannedWrite {
    type V = PlannedWriteView;

    open spec fn view(&self) -> PlannedWriteView {
        PlannedWriteView { path: self.path@, data: self.data@, result: self.result@ }
    }
}

/// A task's desired output location, before collision resolution: under the
/// mirrored subdirectory when structure is kept and the task came from a
/// scan, directly under the output root otherwise; the extension becomes
/// `webp` either way.
pub open spec fn desired_output_view(
    root: Seq<char>,
    input_path: Seq<char>,
    tree_path: Seq<char>,
    keep_dir: bool,
) -> Seq<char> {
    if keep_dir && tree_path.len() > 0 {
        replaced_ext(joined(joined(root, parent_of(tree_path)), file_name_of(tree_path)), "webp"@)
    } else {
        replaced_ext(joined(root, file_name_of(input_path)), "webp"@)
    }
}

/// The desired output location of one task, as `desired_output_view` says.
pub fn desired_output_path(root: &str, input_path: &str, tree_path: &str, keep_dir: bool) -> (r:
    String)
    ensures
        r@ == desired_output_view(root@, input_path@, tree_path@, keep_dir),
{
    if keep_dir && tree_path.unicode_len() > 0 {
        let parent = parent_dir(tree_path);
        let dir = join(root, parent.as_str());
        let name = file_name(tree_path);
        let full = join(dir.as_str(), name.as_str());
        replace_ext(full.as_str(), "webp")
    } else {
        let name = file_name(input_path);
        let full = join(root, name.as_str());
        replace_ext(full.as_str(), "webp")
    }
}

/// The directory that must exist before a mirrored task's file is written.
pub fn mirror_dir(root: &str, tree_path: &str) -> (r: String)
    ensures
        r@ == joined(root@, parent_of(tree_path@)),
{
    let parent = parent_dir(tree_path);
    join(root, parent.as_str())
}

/// A task can be placed when the source name that governs its output file
/// name is nonempty.
pub open spec fn task_placeable(v: ImageInputDataView, keep_dir: bool) -> bool {
    if keep_dir && v.tree_path.len() > 0 {
        file_name_of(v.tree_path).len() > 0
    } else {
        file_name_of(v.path).len() > 0
    }
}

/// A placeable task's desired output has the `webp` extension on a nonempty
/// stem, so collision resolution applies to it.
pub proof fn lemma_desired_well_formed(root: Seq<char>, v: ImageInputDataView, keep_dir: bool)
    requires
        task_placeable(v, keep_dir),
    ensures
        name_has_ext(file_name_of(desired_output_view(root, v.path, v.tree_path, keep_dir))),
        ext_of(file_name_of(desired_output_view(root, v.path, v.tree_path, keep_dir)))
            == "webp"@,
        stem_of(file_name_of(desired_output_view(root, v.path, v.tree_path, keep_dir)))
            == stem_of(
            file_name_of(
                if keep_dir && v.tree_path.len() > 0 {
                    v.tree_path
                } else {
                    v.path
                },
            ),
        ),
{
    let e = "webp"@;
    reveal_strlit("webp");
    assert(forall|j: int| 0 <= j < e.len() ==> e[j] != '/' && e[j] != '.');
    if keep_dir && v.tree_path.len() > 0 {
        let b = file_name_of(v.tree_path);
        lemma_file_name_no_slash(v.tree_path);
        let base = joined(joined(root, parent_of(v.tree_path)), b);
        lemma_joined_file_name(joined(root, parent_of(v.tree_path)), b);
        lemma_replaced_ext_shape(base, e);
    } else {
        let b = file_name_of(v.path);
        lemma_file_name_no_slash(v.path);
        let base = joined(root, b);
        lemma_joined_file_name(root, b);
        lemma_replaced_ext_shape(base, e);
    }
}

/// A placeable task's desired output lies strictly under a nonempty output
/// root: the root is a strict prefix of the path and of its directory part.
pub proof fn lemma_desired_under_root(root: Seq<char>, v: ImageInputDataView, keep_dir: bool)
    requires
        task_placeable(v, keep_dir),
        root.len() > 0,
    ensures
        dir_prefix_of(desired_output_view(root, v.path, v.tree_path, keep_dir)).len()
            >= root.len(),
        dir_prefix_of(desired_output_view(root, v.path, v.tree_path, keep_dir)).take(
            root.len() as int,
        ) == root,
        desired_output_view(root, v.path, v.tree_path, keep_dir).len() > root.len(),
        desired_output_view(root, v.path, v.tree_path, keep_dir).take(root.len() as int) == root,
{
    let e = "webp"@;
    reveal_strlit("webp");
    assert(forall|j: int| 0 <= j < e.len() ==> e[j] != '/' && e[j] != '.');
    let d = desired_output_view(root, v.path, v.tree_path, keep_dir);
    let src = if keep_dir && v.tree_path.len() > 0 {
        v.tree_path
    } else {
        v.path
    };
    let b = file_name_of(src);
    lemma_file_name_no_slash(src);
    let x = if keep_dir && v.tree_path.len() > 0 {
        joined(root, parent_of(v.tree_path))
    } else {
        root
    };
    if keep_dir && v.tree_path.len() > 0 && parent_of(v.tree_path).len() > 0 {
        lemma_joined_starts(root, parent_of(v.tree_path));
    }
    assert(x.len() >= root.len() && x.take(root.len() as int) == root) by {
        assert(root.take(root.len() as int) =~= root);
    }
    let j = joined(x, b);
    lemma_joined_file_name(x, b);
    lemma_replaced_ext_shape(j, e);
    assert(dir_prefix_of(d) == dir_prefix_of(j));
    assert(dir_prefix_of(j).len() >= x.len());
    assert(dir_prefix_of(j).take(root.len() as int) =~= x.take(root.len() as int));
    assert(d =~= dir_prefix_of(d) + (stem_of(b) + seq!['.'] + e));
    assert(d.take(root.len() as int) =~= dir_prefix_of(d).take(root.len() as int));
    lemma_last_index_of(b, '.');
    assert(stem_of(b).len() > 0);
}

/// The locations a plan claims, in order.
pub open spec fn plan_paths(plan: Seq<PlannedWriteView>) -> Seq<Seq<char>> {
    plan.map_values(|w: PlannedWriteView| w.path)
}

/// What one decodable task adds to the plan, given the locations taken so
/// far: the resolved location, the encoded bytes, and the payload.
pub open spec fn planned_one(
    t: LoadedTaskView,
    quality: nat,
    root: Seq<char>,
    keep_dir: bool,
    paths: Seq<Seq<char>>,
) -> PlannedWriteView {
    let d = rgba_of(t.bytes)->Some_0;
    let fin = resolved_path(
        desired_output_view(root, t.input.path, t.input.tree_path, keep_dir),
        paths,
    );
    let enc = webp_encoding_of(d.2, d.0, d.1, quality);
    PlannedWriteView {
        path: fin,
        data: enc,
        result: ImageResultDataView {
            file_name: fin,
            original_size: t.disk_size,
            compressed_size: enc.len(),
        },
    }
}

/// A planning mask is sound when it marks only tasks whose bytes decode; a
/// marked-off task either failed to decode or was refused by the encoder.
pub open spec fn mask_ok(tasks: Seq<LoadedTask>, mask: Seq<bool>) -> bool {
    mask.len() == tasks.len() && (forall|i: int|
        0 <= i < mask.len() && mask[i] ==> rgba_of(#[trigger] tasks[i]@.bytes) is Some)
}

/// The mask a batch actually plans by: exactly the tasks whose transcode
/// succeeds.
pub open spec fn success_mask(tasks: Seq<LoadedTask>, quality: nat) -> Seq<bool> {
    Seq::new(tasks.len(), |i: int| transcode_succeeds(tasks[i]@.bytes, quality))
}

/// The success mask is a sound planning mask.
pub proof fn lemma_success_mask_ok(tasks: Seq<LoadedTask>, quality: nat)
    ensures
        mask_ok(tasks, success_mask(tasks, quality)),
{
    let mask = success_mask(tasks, quality);
    assert forall|i: int| 0 <= i < mask.len() && mask[i] implies rgba_of(
        #[trigger] tasks[i]@.bytes,
    ) is Some by {
        assert(transcode_succeeds(tasks[i]@.bytes, quality));
    }
}

/// The writes one batch decides on, worked through task by task: each marked
/// task claims the next free location, which later tasks then see as taken.
pub open spec fn batch_plan(
    tasks: Seq<LoadedTask>,
    mask: Seq<bool>,
    quality: nat,
    root: Seq<char>,
    keep_dir: bool,
    paths: Seq<Seq<char>>,
) -> Seq<PlannedWriteView>
    decreases tasks.len(),
{
    if tasks.len() == 0 || mask.len() != tasks.len() {
        Seq::empty()
    } else {
        let prior = batch_plan(tasks.drop_last(), mask.drop_last(), quality, root, keep_dir, paths);
        if mask.last() {
            prior.push(
                planned_one(tasks.last()@, quality, root, keep_dir, paths + plan_paths(prior)),
            )
        } else {
            prior
        }
    }
}

/// How many tasks a mask marks.
pub open spec fn count_true(mask: Seq<bool>) -> nat
    decreases mask.len(),
{
    if mask.len() == 0 {
        0
    } else {
        count_true(mask.drop_last()) + (if mask.last() {
            1nat
        } else {
            0nat
        })
    }
}

/// How many tasks of a batch carry bytes that decode.
pub open spec fn count_decodable(tasks: Seq<LoadedTask>) -> nat
    decreases tasks.len(),
{
    if tasks.len() == 0 {
        0
    } else {
        count_decodable(tasks.drop_last()) + (if rgba_of(tasks.last()@.bytes) is Some {
            1nat
        } else {
            0nat
        })
    }
}

/// Law: batch isolation. A batch plans exactly one write per marked task —
/// a task that is not marked (its bytes did not decode, or the encoder
/// refused them) drops out without touching the rest.
pub proof fn lemma_batch_isolation(
    tasks: Seq<LoadedTask>,
    mask: Seq<bool>,
    quality: nat,
    root: Seq<char>,
    keep_dir: bool,
    paths: Seq<Seq<char>>,
)
    requires
        mask.len() == tasks.len(),
    ensures
        batch_plan(tasks, mask, quality, root, keep_dir, paths).len() == count_true(mask),
        count_true(mask) <= tasks.len(),
    decreases tasks.len(),
{
    if tasks.len() > 0 {
        lemma_batch_isolation(
            tasks.drop_last(),
            mask.drop_last(),
            quality,
            root,
            keep_dir,
            paths,
        );
    }
}

/// Law: when every task whose bytes decode is marked, the batch plans
/// exactly one write per decodable task.
pub proof fn lemma_batch_counts_decodable(tasks: Seq<LoadedTask>, mask: Seq<bool>)
    requires
        mask_ok(tasks, mask),
        forall|i: int|
            0 <= i < tasks.len() && rgba_of(#[trigger] tasks[i]@.bytes) is Some ==> mask[i],
    ensures
        count_true(mask) == count_decodable(tasks),
    decreases tasks.len(),
{
    if tasks.len() > 0 {
        assert(forall|i: int|
            0 <= i < tasks.len() - 1 ==> tasks.drop_last()[i] == tasks[i] && mask.drop_last()[i]
                == mask[i]);
        lemma_batch_counts_decodable(tasks.drop_last(), mask.drop_last());
        assert(mask.last() == mask[tasks.len() - 1]);
        assert(tasks.last() == tasks[tasks.len() - 1]);
    }
}

/// Law: collision avoidance across a batch. No planned write claims a
/// location that the listing already holds, and no two planned writes claim
/// the same location.
pub proof fn lemma_batch_plan_fresh(
    tasks: Seq<LoadedTask>,
    mask: Seq<bool>,
    quality: nat,
    root: Seq<char>,
    keep_dir: bool,
    paths: Seq<Seq<char>>,
)
    requires
        mask.len() == tasks.len(),
    ensures
        forall|i: int|
            0 <= i < batch_plan(tasks, mask, quality, root, keep_dir, paths).len()
                ==> !paths.contains(
                #[trigger] batch_plan(tasks, mask, quality, root, keep_dir, paths)[i].path,
            ),
        forall|i: int, j: int|
            0 <= i < j < batch_plan(tasks, mask, quality, root, keep_dir, paths).len()
                ==> #[trigger] batch_plan(tasks, mask, quality, root, keep_dir, paths)[i].path
                != #[trigger] batch_plan(tasks, mask, quality, root, keep_dir, paths)[j].path,
    decreases tasks.len(),
{
    if tasks.len() > 0 {
        let prior = batch_plan(tasks.drop_last(), mask.drop_last(), quality, root, keep_dir, paths);
        let plan = batch_plan(tasks, mask, quality, root, keep_dir, paths);
        lemma_batch_plan_fresh(tasks.drop_last(), mask.drop_last(), quality, root, keep_dir, paths);
        if mask.last() {
            let taken = paths + plan_paths(prior);
            let w = planned_one(tasks.last()@, quality, root, keep_dir, taken);
            lemma_resolve_exists(
                desired_output_view(
                    root,
                    tasks.last()@.input.path,
                    tasks.last()@.input.tree_path,
                    keep_dir,
                ),
                taken,
            );
            assert(resolve_ok(
                desired_output_view(
                    root,
                    tasks.last()@.input.path,
                    tasks.last()@.input.tree_path,
                    keep_dir,
                ),
                taken,
                w.path,
            ));
            assert(!taken.contains(w.path));
            assert forall|i: int| 0 <= i < plan.len() implies !paths.contains(
                #[trigger] plan[i].path,
            ) by {
                if i < prior.len() {
                    assert(plan[i] == prior[i]);
                } else {
                    assert(plan[i] == w);
                    if paths.contains(w.path) {
                        let x = choose|x: int| 0 <= x < paths.len() && paths[x] == w.path;
                        assert(taken[x] == w.path);
                    }
                }
            }
            assert forall|i: int, j: int| 0 <= i < j < plan.len() implies #[trigger] plan[i].path
                != #[trigger] plan[j].path by {
                if j < prior.len() {
                    assert(plan[i] == prior[i] && plan[j] == prior[j]);
                } else {
                    assert(plan[j] == w);
                    assert(plan[i] == prior[i]);
                    assert(plan_paths(prior)[i] == prior[i].path);
                    if prior[i].path == w.path {
                        assert(taken[paths.len() + i] == w.path);
                    }
                }
            }
        }
    }
}

/// Law: every location a batch of placeable tasks plans lies strictly under
/// a nonempty output root — the root is a strict prefix of each planned
/// path.
pub proof fn lemma_plan_under_root(
    tasks: Seq<LoadedTask>,
    mask: Seq<bool>,
    quality: nat,
    root: Seq<char>,
    keep_dir: bool,
    paths: Seq<Seq<char>>,
)
    requires
        mask.len() == tasks.len(),
        root.len() > 0,
        forall|i: int|
            0 <= i < tasks.len() ==> task_placeable(#[trigger] tasks[i]@.input, keep_dir),
    ensures
        forall|i: int|
            0 <= i < batch_plan(tasks, mask, quality, root, keep_dir, paths).len() ==> {
                let p = #[trigger] batch_plan(tasks, mask, quality, root, keep_dir, paths)[i].path;
                p.len() > root.len() && p.take(root.len() as int) == root
            },
    decreases tasks.len(),
{
    if tasks.len() > 0 {
        let prior = batch_plan(tasks.drop_last(), mask.drop_last(), quality, root, keep_dir, paths);
        let plan = batch_plan(tasks, mask, quality, root, keep_dir, paths);
        assert(forall|i: int|
            0 <= i < tasks.len() - 1 ==> tasks.drop_last()[i] == tasks[i]);
        lemma_plan_under_root(tasks.drop_last(), mask.drop_last(), quality, root, keep_dir, paths);
        if mask.last() {
            let v = tasks.last()@.input;
            let taken = paths + plan_paths(prior);
            let desired = desired_output_view(root, v.path, v.tree_path, keep_dir);
            let w = planned_one(tasks.last()@, quality, root, keep_dir, taken);
            lemma_resolve_exists(desired, taken);
            assert(resolve_ok(desired, taken, w.path));
            lemma_desired_under_root(root, v, keep_dir);
            lemma_desired_well_formed(root, v, keep_dir);
            if taken.contains(desired) {
                let k = choose|k: nat|
                    1 <= k && w.path == #[trigger] candidate_of(desired, k) && (forall|j: nat|
                        1 <= j < k ==> taken.contains(#[trigger] candidate_of(desired, j)));
                lemma_candidate_shape(desired, k);
                assert(w.path =~= dir_prefix_of(desired) + (stem_of(file_name_of(desired))
                    + seq!['-'] + crate::resolve::dec_digits(k) + seq!['.'] + ext_of(
                    file_name_of(desired),
                )));
                assert(w.path.take(root.len() as int) =~= dir_prefix_of(desired).take(
                    root.len() as int,
                ));
                lemma_last_index_of(file_name_of(desired), '.');
                assert(stem_of(file_name_of(desired)).len() > 0);
            }
            assert(w.path.len() > root.len() && w.path.take(root.len() as int) == root);
            assert forall|i: int| 0 <= i < plan.len() implies {
                let p = #[trigger] plan[i].path;
                p.len() > root.len() && p.take(root.len() as int) == root
            } by {
                if i < prior.len() {
                    assert(plan[i] == prior[i]);
                } else {
                    assert(plan[i] == w);
                }
            }
        }
    }
}

/// Law: structure mirroring. With structure kept, a scanned task's desired
/// output is its source's file name, re-extended to `webp`, joined under the
/// output root and the source's relative subdirectory.
pub proof fn lemma_structure_mirroring(root: Seq<char>, input_path: Seq<char>, tree_path: Seq<char>)
    requires
        file_name_of(tree_path).len() > 0,
    ensures
        desired_output_view(root, input_path, tree_path, true) == joined(
            joined(root, parent_of(tree_path)),
            stem_of(file_name_of(tree_path)) + seq!['.'] + "webp"@,
        ),
{
    if tree_path.len() > 0 {
        lemma_file_name_no_slash(tree_path);
        lemma_replace_in_joined(
            joined(root, parent_of(tree_path)),
            file_name_of(tree_path),
            "webp"@,
        );
    }
}

/// One batch, worked through in submission order: transcodes each task,
/// resolves its collision-free location against the listing as it grows by
/// the locations already claimed, and collects the writes to perform, each
/// with its completion payload. A task whose bytes do not decode, or whose
/// pixels the encoder refuses, drops out; the rest of the batch is
/// unaffected.
pub fn add_compress_path_list(
    tasks: &Vec<LoadedTask>,
    quality: u8,
    output_path: &str,
    keep_dir: bool,
    existing: Vec<String>,
) -> (r: Vec<PlannedWrite>)
    requires
        quality <= 100,
        forall|i: int|
            0 <= i < tasks@.len() ==> task_placeable(#[trigger] tasks@[i]@.input, keep_dir),
        tasks@.len() + existing@.len() < usize::MAX,
    ensures
        r@.map_values(|w: PlannedWrite| w@) == batch_plan(
            tasks@,
            success_mask(tasks@, quality as nat),
            quality as nat,
            output_path@,
            keep_dir,
            path_views(existing@),
        ),
{
    let ghost paths0 = path_views(existing@);
    let ghost n0 = existing@.len();
    let mut ex = existing;
    let mut out: Vec<PlannedWrite> = Vec::new();
    let ghost mut mask: Seq<bool> = Seq::empty();
    let mut i: usize = 0;
    proof {
        assert(tasks@.take(0) =~= Seq::<LoadedTask>::empty());
        assert(out@.map_values(|w: PlannedWrite| w@) =~= Seq::<PlannedWriteView>::empty());
        assert(plan_paths(Seq::<PlannedWriteView>::empty()) =~= Seq::<Seq<char>>::empty());
        assert(paths0 + Seq::<Seq<char>>::empty() =~= paths0);
    }
    while i < tasks.len()
        invariant
            i <= tasks@.len(),
            quality <= 100,
            forall|j: int|
                0 <= j < tasks@.len() ==> task_placeable(#[trigger] tasks@[j]@.input, keep_dir),
            tasks@.len() + n0 < usize::MAX,
            paths0.len() == n0,
            mask.len() == i,
            mask == success_mask(tasks@.take(i as int), quality as nat),
            out@.map_values(|w: PlannedWrite| w@) == batch_plan(
                tasks@.take(i as int),
                mask,
                quality as nat,
                output_path@,
                keep_dir,
                paths0,
            ),
            path_views(ex@) == paths0 + plan_paths(out@.map_values(|w: PlannedWrite| w@)),
            ex@.len() == n0 + out@.len(),
            out@.len() <= i,
        decreases tasks@.len() - i,
    {
        let ghost prior_plan = out@.map_values(|w: PlannedWrite| w@);
        let ghost tasks_next = tasks@.take(i as int + 1);
        proof {
            assert(tasks_next.drop_last() =~= tasks@.take(i as int));
            assert(tasks_next.last() == tasks@[i as int]);
        }
        let t = &tasks[i];
        let res = compress_and_encode_image(&t.bytes, quality, t.disk_size);
        match res {
            Ok((data, orig, comp)) => {
                let desired = desired_output_path(
                    output_path,
                    t.input.path.as_str(),
                    t.input.tree_path.as_str(),
                    keep_dir,
                );
                proof {
                    lemma_desired_well_formed(output_path@, tasks@[i as int]@.input, keep_dir);
                }
                let fin = get_available_file_path(desired.as_str(), &ex);
                let fin_name = fin.clone();
                let fin_taken = fin.clone();
                let w = PlannedWrite {
                    path: fin,
                    data,
                    result: ImageResultData {
                        file_name: fin_name,
                        original_size: orig,
                        compressed_size: comp,
                    },
                };
                proof {
                    assert(w@ == planned_one(
                        tasks@[i as int]@,
                        quality as nat,
                        output_path@,
                        keep_dir,
                        paths0 + plan_paths(prior_plan),
                    ));
                }
                let ghost ex_before = ex@;
                ex.push(fin_taken);
                out.push(w);
                proof {
                    let mask_before = mask;
                    mask = mask.push(true);
                    assert(mask.drop_last() =~= mask_before);
                    assert(transcode_succeeds(tasks@[i as int]@.bytes, quality as nat));
                    assert(mask =~= success_mask(tasks_next, quality as nat));
                    let plan_next = batch_plan(
                        tasks_next,
                        mask,
                        quality as nat,
                        output_path@,
                        keep_dir,
                        paths0,
                    );
                    assert(out@.map_values(|w: PlannedWrite| w@) =~= prior_plan.push(w@));
                    assert(mask.len() == tasks_next.len());
                    assert(mask.last());
                    assert(batch_plan(
                        tasks_next.drop_last(),
                        mask.drop_last(),
                        quality as nat,
                        output_path@,
                        keep_dir,
                        paths0,
                    ) == prior_plan) by {
                        assert(tasks_next.drop_last() =~= tasks@.take(i as int));
                    }
                    assert(plan_next == prior_plan.push(w@));
                    assert(path_views(ex@) =~= path_views(ex_before).push(w@.path));
                    assert(plan_paths(prior_plan.push(w@)) =~= plan_paths(prior_plan).push(
                        w@.path,
                    ));
                    assert(paths0 + plan_paths(prior_plan).push(w@.path) =~= (paths0 + plan_paths(
                        prior_plan,
                    )).push(w@.path));
                }
            },
            Err(_) => {
                proof {
                    let mask_before = mask;
                    mask = mask.push(false);
                    assert(mask.drop_last() =~= mask_before);
                    assert(!transcode_succeeds(tasks@[i as int]@.bytes, quality as nat));
                    assert(mask =~= success_mask(tasks_next, quality as nat));
                    assert(batch_plan(
                        tasks_next.drop_last(),
                        mask.drop_last(),
                        quality as nat,
                        output_path@,
                        keep_dir,
                        paths0,
                    ) == prior_plan) by {
                        assert(tasks_next.drop_last() =~= tasks@.take(i as int));
                    }
                    assert(batch_plan(
                        tasks_next,
                        mask,
                        quality as nat,
                        output_path@,
                        keep_dir,
                        paths0,
                    ) == prior_plan);
                }
            },
        }
        i = i + 1;
    }
    proof {
        assert(tasks@.take(tasks@.len() as int) =~= tasks@);
        assert(mask == success_mask(tasks@, quality as nat));
    }
    out
}

} // verus!
