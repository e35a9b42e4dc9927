//! Indexing the files of the vaults, read through a file system.
use vstd::prelude::*;
use crate::semantic::SemanticModel;
use crate::text::copy_str;
use crate::vfs::{FileSystem, VfsMetadata};
use crate::workspace::{IndexingStats, Workspace, content_indexed};
use crate::workspace::tree::{
    ancestor, hierarchy_closed, is_ancestor_key, is_real_note, is_virtual_note, key_has_note,
};
use crate::workspace::assembler::registry_grows;
use crate::config::VaultConfig;

verus! {

/// What indexing the file at `path` of the vault `vault` through the file
/// system `fs` does to the workspace `o` and the counts `so`: a metadata hit,
/// where `fs` reports the size and time recorded for a bound path (nothing
/// changes but the count of such hits); a file `fs` cannot read (nothing
/// changes); or content and metadata that `fs` gives for the path, indexed
/// (see `content_indexed`).
pub open spec fn file_indexed<M: SemanticModel, F: FileSystem>(
    o: Workspace<M>,
    f: Workspace<M>,
    so: IndexingStats,
    sf: IndexingStats,
    fs: F,
    path: Seq<char>,
    vault: Seq<char>,
) -> bool {
    ||| {
        &&& f == o
        &&& exists|meta: VfsMetadata|
            #[trigger] fs.reports(path, Some(meta)) && o.cache_metadata@.contains_key(path)
                && o.cache_metadata@[path].mtime == meta.mtime && o.cache_metadata@[path].size
                == meta.len
        &&& o.store.paths().contains_key(path)
        &&& sf == (IndexingStats {
            tier1_hits: if so.tier1_hits < usize::MAX {
                (so.tier1_hits + 1) as usize
            } else {
                so.tier1_hits
            },
            ..so
        })
    }
    ||| f == o && sf == so && fs.reads(path, None)
    ||| exists|content: Seq<char>, v: String, meta: Option<VfsMetadata>|
        #![trigger content_indexed(o, f, so, sf, path, content, v, meta)]
        v@ == vault && fs.reads(path, Some(content)) && fs.reports(path, meta) && content_indexed(
            o,
            f,
            so,
            sf,
            path,
            content,
            v,
            meta,
        )
}

/// The files of the lists `ls`, one list after another.
pub open spec fn joined_lists(ls: Seq<Seq<Seq<char>>>) -> Seq<Seq<char>>
    decreases ls.len(),
{
    if ls.len() == 0 {
        Seq::empty()
    } else {
        joined_lists(ls.drop_last()) + ls.last()
    }
}

/// `per[v][e]` is a listing `fs` may give of the files with extension
/// `exts[e]` under the path of the vault `vaults[v]`, for each vault and
/// each extension.
pub open spec fn vault_listings<F: FileSystem>(
    fs: F,
    vaults: Seq<VaultConfig>,
    exts: Seq<Seq<char>>,
    per: Seq<Seq<Seq<Seq<char>>>>,
) -> bool {
    &&& per.len() == vaults.len()
    &&& forall|v: int| 0 <= v < per.len() ==> (#[trigger] per[v]).len() == exts.len()
    &&& forall|v: int, e: int|
        0 <= v < per.len() && 0 <= e < exts.len() ==> fs.lists(
            vaults[v].path@,
            exts[e],
            #[trigger] per[v][e],
        )
}

/// The files of the listings `per`, vault after vault and, within a vault,
/// extension after extension, each with the name of its vault.
pub open spec fn listed_files(vaults: Seq<VaultConfig>, per: Seq<Seq<Seq<Seq<char>>>>) -> Seq<
    (Seq<char>, Seq<char>),
>
    decreases per.len(),
{
    if per.len() == 0 {
        Seq::empty()
    } else {
        listed_files(vaults, per.drop_last()) + joined_lists(per.last()).map_values(
            |f: Seq<char>| (f, vaults[per.len() - 1].name@),
        )
    }
}

/// Indexing the files of `listed` one after another through `fs` (each in
/// its vault, see `file_indexed`) takes the workspace and the counts from
/// `ws[i]`, `sts[i]` to `ws[i + 1]`, `sts[i + 1]`.
pub open spec fn indexed_in_turn<M: SemanticModel, F: FileSystem>(
    ws: Seq<Workspace<M>>,
    sts: Seq<IndexingStats>,
    fs: F,
    listed: Seq<(Seq<char>, Seq<char>)>,
) -> bool {
    &&& ws.len() == listed.len() + 1
    &&& sts.len() == ws.len()
    &&& forall|i: int|
        0 <= i < listed.len() ==> #[trigger] file_indexed(
            ws[i],
            ws[i + 1],
            sts[i],
            sts[i + 1],
            fs,
            listed[i].0,
            listed[i].1,
        )
}

/// `f` is `o` once the virtual notes of the missing hierarchy levels are
/// added (see `fill_missing_hierarchy_levels`).
pub open spec fn levels_filled<M: SemanticModel>(o: Workspace<M>, f: Workspace<M>) -> bool {
    &&& f.model == o.model
    &&& f.config == o.config
    &&& f.store.paths() == o.store.paths()
    &&& registry_grows(o.identity, f.identity)
    &&& forall|k: u128|
        #![trigger o.store.notes()[k]]
        o.store.notes().contains_key(k) ==> f.store.notes().contains_key(k) && f.store.notes()[k]
            == o.store.notes()[k]
    &&& forall|k: u128|
        #![trigger f.store.notes()[k]]
        f.store.notes().contains_key(k) && !o.store.notes().contains_key(k) ==> is_virtual_note(
            f.store.notes()[k],
            k,
        )
    &&& forall|k: u128|
        #![trigger f.store.notes()[k]]
        f.store.notes().contains_key(k) && !o.store.notes().contains_key(k) ==> exists|a: Seq<char>|
            #[trigger] f.identity.keys().contains_key(a) && is_ancestor_key(o, a)
                && f.identity.keys()[a].0 == k
    &&& forall|k: u128, n: nat|
        #![trigger is_real_note(o, k), ancestor(o.model, o.identity.ids()[k], n)]
        is_real_note(o, k) && n >= 1 && ancestor(o.model, o.identity.ids()[k], n) is Some
            ==> key_has_note(f, ancestor(o.model, o.identity.ids()[k], n)->0)
    &&& hierarchy_closed(f)
}

/// `f` and the counts `stats` are what a full indexing run through `fs`
/// makes of `o`, with `files` the files listed: for each vault of the
/// configuration in order and each extension of the model in order, a
/// listing `fs` may give of the vault's path; each listed file indexed in
/// turn, in its vault, from no counts; the total set to the number of files;
/// then the missing hierarchy levels filled.
pub open spec fn fully_indexed<M: SemanticModel, F: FileSystem>(
    o: Workspace<M>,
    f: Workspace<M>,
    fs: F,
    files: Seq<Seq<char>>,
    stats: IndexingStats,
) -> bool {
    exists|per: Seq<Seq<Seq<Seq<char>>>>, ws: Seq<Workspace<M>>, sts: Seq<IndexingStats>|
        #![trigger vault_listings(fs, o.config.workspace.vaults@, o.model.extensions(), per), indexed_in_turn(ws, sts, fs, listed_files(o.config.workspace.vaults@, per))]
        {
            let listed = listed_files(o.config.workspace.vaults@, per);
            &&& vault_listings(fs, o.config.workspace.vaults@, o.model.extensions(), per)
            &&& files == listed.map_values(|x: (Seq<char>, Seq<char>)| x.0)
            &&& indexed_in_turn(ws, sts, fs, listed)
            &&& ws[0] == o
            &&& sts[0] == (IndexingStats {
                total_files: 0,
                tier1_hits: 0,
                tier2_hits: 0,
                full_parses: 0,
            })
            &&& stats == (IndexingStats { total_files: files.len() as usize, ..sts.last() })
            &&& levels_filled(ws.last(), f)
        }
}

impl<M: SemanticModel> Workspace<M> {
    /// Indexes the file at `path` of the vault `vault_name`.  When the file
    /// system reports the size and modification time last recorded for it
    /// and its path is bound, nothing is read (a metadata hit); else it is
    /// read and indexed (see `index_content`).  A file that cannot be read
    /// is left as it was.
    pub fn index_file<F: FileSystem>(
        &mut self,
        fs: &F,
        path: String,
        vault_name: &str,
        stats: &mut IndexingStats,
    )
        requires
            old(self).wf(),
        ensures
            final(self).wf(),
            final(self).model == old(self).model,
            final(self).config == old(self).config,
            final(stats).total_files == old(stats).total_files,
            file_indexed(*old(self), *final(self), *old(stats), *final(stats), *fs, path@, vault_name@),
    {
        if let Some(meta) = fs.metadata(path.as_str()) {
            if self.unchanged_since_indexed(path.as_str(), &meta) {
                if stats.tier1_hits < usize::MAX {
                    stats.tier1_hits = stats.tier1_hits + 1;
                }
                return ;
            }
        }
        let content = match fs.read_to_string(path.as_str()) {
            Some(c) => c,
            None => return ,
        };
        let meta = fs.metadata(path.as_str());
        let vault = copy_str(vault_name);
        let ghost v = vault;
        let ghost p = path@;
        self.index_content(path, content.as_str(), vault, meta, stats);
        assert(content_indexed(*old(self), *self, *old(stats), *stats, p, content@, v, meta));
    }

    /// Indexes every note file of every vault (the files with an extension
    /// of the model, listed under the vault's path), then adds the virtual
    /// notes of the missing hierarchy levels.  Returns the files listed and
    /// the counts of the run (see `fully_indexed`).
    pub fn full_index<F: FileSystem>(&mut self, fs: &F) -> (r: (Vec<String>, IndexingStats))
        requires
            old(self).wf(),
        ensures
            final(self).wf(),
            final(self).model == old(self).model,
            final(self).config == old(self).config,
            r.1.total_files == r.0@.len(),
            hierarchy_closed(*final(self)),
            fully_indexed(
                *old(self),
                *final(self),
                *fs,
                r.0@.map_values(|f: String| f@),
                r.1,
            ),
    {
        let ghost cfg = self.config.workspace.vaults@;
        let ghost exts = self.model.extensions();
        let extensions = self.model.supported_extensions();
        let mut vaults: Vec<(String, String)> = Vec::new();
        let mut v: usize = 0;
        while v < self.config.workspace.vaults.len()
            invariant
                v <= self.config.workspace.vaults@.len(),
                cfg == self.config.workspace.vaults@,
                vaults@.len() == v,
                forall|j: int|
                    0 <= j < v ==> (#[trigger] vaults@[j]).0@ == cfg[j].name@ && vaults@[j].1@
                        == cfg[j].path@,
            decreases self.config.workspace.vaults@.len() - v,
        {
            let vault = &self.config.workspace.vaults[v];
            vaults.push((copy_str(vault.name.as_str()), copy_str(vault.path.as_str())));
            v = v + 1;
        }
        let mut all_files: Vec<String> = Vec::new();
        let mut stats = IndexingStats::default();
        let ghost mut per: Seq<Seq<Seq<Seq<char>>>> = Seq::empty();
        let ghost mut ws: Seq<Workspace<M>> = seq![*self];
        let ghost mut sts: Seq<IndexingStats> = seq![stats];
        let mut v: usize = 0;
        while v < vaults.len()
            invariant
                v <= vaults@.len(),
                vaults@.len() == cfg.len(),
                forall|j: int|
                    0 <= j < vaults@.len() ==> (#[trigger] vaults@[j]).0@ == cfg[j].name@
                        && vaults@[j].1@ == cfg[j].path@,
                extensions@.map_values(|s: String| s@) == exts,
                exts == old(self).model.extensions(),
                cfg == old(self).config.workspace.vaults@,
                self.wf(),
                self.model == old(self).model,
                self.config == old(self).config,
                per.len() == v,
                vault_listings(*fs, cfg.take(v as int), exts, per),
                all_files@.map_values(|f: String| f@) == listed_files(cfg, per).map_values(
                    |x: (Seq<char>, Seq<char>)| x.0,
                ),
                indexed_in_turn(ws, sts, *fs, listed_files(cfg, per)),
                ws[0] == *old(self),
                sts[0] == (IndexingStats { total_files: 0, tier1_hits: 0, tier2_hits: 0, full_parses: 0 }),
                ws.last() == *self,
                sts.last() == stats,
            decreases vaults@.len() - v,
        {
            let mut vault_files: Vec<String> = Vec::new();
            let ghost mut cur: Seq<Seq<Seq<char>>> = Seq::empty();
            let mut e: usize = 0;
            while e < extensions.len()
                invariant
                    e <= extensions@.len(),
                    v < vaults@.len(),
                    cur.len() == e,
                    extensions@.map_values(|s: String| s@) == exts,
                    forall|j: int| 0 <= j < e ==> fs.lists(vaults@[v as int].1@, exts[j], #[trigger] cur[j]),
                    vault_files@.map_values(|f: String| f@) == joined_lists(cur),
                decreases extensions@.len() - e,
            {
                let mut listed = fs.list_files(vaults[v].1.as_str(), extensions[e].as_str());
                let ghost got = listed@.map_values(|f: String| f@);
                let ghost before = vault_files@;
                assert(extensions@[e as int]@ == exts[e as int]);
                vault_files.append(&mut listed);
                proof {
                    let old_cur = cur;
                    cur = cur.push(got);
                    assert(cur.drop_last() =~= old_cur);
                    assert(vault_files@.map_values(|f: String| f@) =~= joined_lists(cur));
                }
                e = e + 1;
            }
            let ghost done = listed_files(cfg, per);
            let ghost name = cfg[v as int].name@;
            let ghost vf = vault_files@.map_values(|f: String| f@);
            let mut f: usize = 0;
            while f < vault_files.len()
                invariant
                    f <= vault_files@.len(),
                    v < vaults@.len(),
                    vaults@[v as int].0@ == name,
                    vf == vault_files@.map_values(|f: String| f@),
                    self.wf(),
                    self.model == old(self).model,
                    self.config == old(self).config,
                    indexed_in_turn(
                        ws,
                        sts,
                        *fs,
                        done + vf.take(f as int).map_values(|p: Seq<char>| (p, name)),
                    ),
                    ws[0] == *old(self),
                    sts[0] == (IndexingStats { total_files: 0, tier1_hits: 0, tier2_hits: 0, full_parses: 0 }),
                    ws.last() == *self,
                    sts.last() == stats,
                decreases vault_files@.len() - f,
            {
                let path = copy_str(vault_files[f].as_str());
                let ghost w_before = *self;
                let ghost s_before = stats;
                let ghost prev = done + vf.take(f as int).map_values(|p: Seq<char>| (p, name));
                let ghost next = done + vf.take(f + 1).map_values(|p: Seq<char>| (p, name));
                self.index_file(fs, path, vaults[v].0.as_str(), &mut stats);
                proof {
                    assert(next =~= prev.push((vf[f as int], name)));
                    let ws0 = ws;
                    let sts0 = sts;
                    ws = ws.push(*self);
                    sts = sts.push(stats);
                    assert forall|i: int| 0 <= i < next.len() implies #[trigger] file_indexed(
                        ws[i],
                        ws[i + 1],
                        sts[i],
                        sts[i + 1],
                        *fs,
                        next[i].0,
                        next[i].1,
                    ) by {
                        if i < prev.len() {
                            assert(ws[i] == ws0[i] && ws[i + 1] == ws0[i + 1]);
                            assert(sts[i] == sts0[i] && sts[i + 1] == sts0[i + 1]);
                            assert(next[i] == prev[i]);
                            assert(file_indexed(ws0[i], ws0[i + 1], sts0[i], sts0[i + 1], *fs, prev[i].0, prev[i].1));
                        } else {
                            assert(ws[i] == w_before);
                            assert(sts[i] == s_before);
                        }
                    }
                }
                f = f + 1;
            }
            let ghost before_all = all_files@.map_values(|f: String| f@);
            all_files.append(&mut vault_files);
            proof {
                assert(vf.take(vf.len() as int) =~= vf);
                let old_per = per;
                per = per.push(cur);
                assert(per.drop_last() =~= old_per);
                assert(listed_files(cfg, per) =~= done + vf.map_values(|p: Seq<char>| (p, name)));
                assert(before_all == done.map_values(|x: (Seq<char>, Seq<char>)| x.0));
                assert(all_files@.map_values(|f: String| f@) =~= before_all + vf);
                let lp = listed_files(cfg, per);
                assert(lp.map_values(|x: (Seq<char>, Seq<char>)| x.0) =~= before_all + vf) by {
                    assert forall|i: int| 0 <= i < lp.len() implies #[trigger] lp[i].0 == (
                    before_all + vf)[i] by {
                        if i < done.len() {
                            assert(lp[i] == done[i]);
                        } else {
                            assert(lp[i] == (vf[i - done.len()], name));
                        }
                    }
                }
                assert forall|j: int| 0 <= j <= v implies (#[trigger] per[j]).len() == exts.len() by {
                    if j < v {
                        assert(per[j] == old_per[j]);
                    }
                }
                assert(cfg.take(v + 1).len() == per.len());
                assert forall|j: int, k: int|
                    0 <= j < per.len() && 0 <= k < exts.len() implies fs.lists(
                    cfg.take(v + 1)[j].path@,
                    exts[k],
                    #[trigger] per[j][k],
                ) by {
                    if j < v {
                        assert(per[j] == old_per[j]);
                        assert(cfg.take(v as int)[j] == cfg.take(v + 1)[j]);
                    }
                }
            }
            v = v + 1;
        }
        stats.total_files = all_files.len();
        let ghost wn = *self;
        self.fill_missing_hierarchy_levels();
        proof {
            assert(cfg.take(cfg.len() as int) =~= cfg);
            assert(levels_filled(wn, *self));
        }
        (all_files, stats)
    }

    /// Indexes the workspace from scratch (see `full_index`).
    pub fn initialize<F: FileSystem>(&mut self, fs: &F) -> (r: (Vec<String>, IndexingStats))
        requires
            old(self).wf(),
        ensures
            final(self).wf(),
            final(self).model == old(self).model,
            final(self).config == old(self).config,
            r.1.total_files == r.0@.len(),
            hierarchy_closed(*final(self)),
            fully_indexed(*old(self), *final(self), *fs, r.0@.map_values(|f: String| f@), r.1),
    {
        self.full_index(fs)
    }

    /// Reads `content` as the file at `path` of the vault `vault_name` (see
    /// `update_content`), recording what the file system reports of it.
    pub fn update_file<F: FileSystem>(
        &mut self,
        path: String,
        content: &str,
        vault_name: String,
        fs: &F,
    )
        requires
            old(self).wf(),
        ensures
            final(self).wf(),
            final(self).model == old(self).model,
            final(self).config == old(self).config,
            crate::workspace::content_updated(
                *old(self),
                *final(self),
                path@,
                content@,
                crate::digest::digest_of(content@),
                vault_name,
            ),
    {
        let meta = fs.metadata(path.as_str());
        self.update_content(path, content, vault_name, meta);
    }
}

} // verus!
