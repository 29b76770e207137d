//! What buffers and the disk do to the documents.
use vstd::prelude::*;
use crate::path;
use crate::pathmap::PathMap;
use crate::server::upkeep;
use crate::server::workspaces;
use crate::server::workspaces::{State, Workspaces};
use crate::store;
use crate::store::{DiskUpdate, DocView, Document, StoreView, Tier};
use crate::structural::ExternalExistence;
use crate::text;
use crate::uri;
use crate::workspace;
use crate::workspace::{FileData, FileView};

verus! {

/// A document as it is taken in: under the root that covers it, read under that
/// root's configuration.
pub open spec fn taken_in(s: State, abs: Seq<u8>, data: FileView) -> DocView {
    let root = workspaces::placement(s, abs);
    DocView { data: workspace::read_under(data, workspaces::config_at(s, root)), root }
}

/// The state with another store.
pub open spec fn with_store(s: State, store: StoreView) -> State {
    State { store, ..s }
}

/// The state with another buffer for a document.
pub open spec fn with_buffer(s: State, abs: Seq<u8>, doc: DocView) -> State {
    with_store(s, StoreView { overlay: s.store.overlay.insert(abs, doc), ..s.store })
}

/// The state without a buffer for a document.
pub open spec fn without_buffer(s: State, abs: Seq<u8>) -> State {
    with_store(s, StoreView { overlay: s.store.overlay.remove(abs), ..s.store })
}

/// The state after a document was opened: its buffer is kept where it differs
/// from the saved copy.
pub open spec fn opened(
    s: State,
    external: Map<Seq<u8>, ExternalExistence>,
    abs: Seq<u8>,
    data: FileView,
) -> State {
    if s.store.saved.contains_key(abs) && s.store.saved[abs].data.tree.text() == data.tree.text() {
        without_buffer(s, abs)
    } else {
        changed(s, external, abs, data)
    }
}

/// The state after a document was edited.
pub open spec fn changed(
    s: State,
    external: Map<Seq<u8>, ExternalExistence>,
    abs: Seq<u8>,
    data: FileView,
) -> State {
    upkeep::recomputed(with_buffer(s, abs, taken_in(s, abs, data)), external, abs)
}

/// The state after what a write left to be computed was computed.
pub open spec fn settled(
    s: State,
    external: Map<Seq<u8>, ExternalExistence>,
    abs: Seq<u8>,
    update: DiskUpdate,
) -> State {
    match update {
        DiskUpdate::Membership => upkeep::swept(s, external),
        DiskUpdate::Content => upkeep::recomputed(s, external, abs),
        DiskUpdate::Untouched => s,
    }
}

/// The state after a document was saved with its text.
pub open spec fn committed(
    s: State,
    external: Map<Seq<u8>, ExternalExistence>,
    abs: Seq<u8>,
    data: FileView,
) -> State {
    let doc = taken_in(s, abs, data);
    let t = with_store(s, store::saved_now(s.store, abs, doc.root, doc.data));
    if s.store.saved.contains_key(abs) {
        upkeep::recomputed(t, external, abs)
    } else {
        upkeep::swept(t, external)
    }
}

/// What was found of a document, read under the configuration that covers it.
pub open spec fn found_as(s: State, abs: Seq<u8>, found: Option<FileView>) -> Option<FileView> {
    match found {
        Some(data) => Some(taken_in(s, abs, data).data),
        None => None,
    }
}

/// The state after a document was read from disk, and what is left to compute.
pub open spec fn read_back(s: State, abs: Seq<u8>, found: Option<FileView>) -> (State, DiskUpdate) {
    let (t, update) = store::read_from_disk(
        s.store,
        abs,
        s.open.contains_key(abs),
        workspaces::placement(s, abs),
        found_as(s, abs, found),
    );
    (with_store(s, t), update)
}

/// The state after a document was saved without its text, and what is left to
/// compute.
pub open spec fn committed_from_disk(s: State, abs: Seq<u8>, found: Option<FileView>) -> (
    State,
    DiskUpdate,
) {
    let (t, update) = store::read_from_disk(
        StoreView { overlay: s.store.overlay.remove(abs), ..s.store },
        abs,
        false,
        workspaces::placement(s, abs),
        found_as(s, abs, found),
    );
    (with_store(s, t), update)
}

/// The state after a document outside every scope was closed.
pub open spec fn dropped(s: State, abs: Seq<u8>) -> State {
    if s.store.current().contains_key(abs) && s.store.current()[abs].root is None {
        with_store(
            s,
            StoreView {
                saved: s.store.saved.remove(abs),
                overlay: s.store.overlay.remove(abs),
            },
        )
    } else {
        s
    }
}

/// Whether what was found of a document can be checked.
pub open spec fn found_wf(found: Option<FileData>) -> bool {
    found matches Some(data) ==> data@.wf()
}

impl Workspaces {
    /// Take in what was read of a document.
    pub fn parse_buffer(&self, abs: &str, data: FileData) -> (r: Document)
        ensures
            r@ == taken_in(self@, path::named(abs@), data@),
    {
        let primary = self.deepest_root_for(abs);
        let data = workspace::read_with(data, self.config_for(&primary));
        Document { data, primary_root: primary }
    }

    /// Take the buffer of a document that was opened. It is a claim about what
    /// the client holds, so the saved copy stays as it is; a buffer that equals
    /// the saved copy is not kept.
    pub fn open_buffer(
        &mut self,
        uri: &str,
        data: FileData,
        external: &PathMap<ExternalExistence>,
    )
        requires
            old(self).wf(),
            data@.wf(),
        ensures
            final(self).wf(),
            final(self)@ == opened(
                old(self)@,
                external@,
                uri::path_of(text::utf8(uri@)),
                data@,
            ),
    {
        let abs = uri::uri_to_path(uri);
        let shared = match self.store.source(abs.as_str(), Tier::Saved) {
            Some(source) => text::same(source, data.tree.source.as_str()),
            None => false,
        };
        if shared {
            self.store.open_buffer(abs.as_str(), None);
            return ;
        }
        let doc = self.parse_buffer(abs.as_str(), data);
        self.store.open_buffer(abs.as_str(), Some(doc));
        self.recompute_structural(abs.as_str(), external);
    }

    /// Take the buffer of a document that was edited.
    pub fn change_buffer(
        &mut self,
        uri: &str,
        data: FileData,
        external: &PathMap<ExternalExistence>,
    )
        requires
            old(self).wf(),
            data@.wf(),
        ensures
            final(self).wf(),
            final(self)@ == changed(
                old(self)@,
                external@,
                uri::path_of(text::utf8(uri@)),
                data@,
            ),
    {
        let abs = uri::uri_to_path(uri);
        let doc = self.parse_buffer(abs.as_str(), data);
        self.store.change_buffer(abs.as_str(), doc);
        self.recompute_structural(abs.as_str(), external);
    }

    /// Drop the buffer of a document that was closed.
    pub fn close_buffer(&mut self, abs: &str)
        requires
            old(self).wf(),
        ensures
            final(self).wf(),
            final(self)@ == without_buffer(old(self)@, path::named(abs@)),
    {
        self.store.close_buffer(abs);
    }

    /// Commit the text of a document that was saved.
    pub fn commit_save(
        &mut self,
        uri: &str,
        data: FileData,
        external: &PathMap<ExternalExistence>,
    )
        requires
            old(self).wf(),
            data@.wf(),
        ensures
            final(self).wf(),
            final(self)@ == committed(
                old(self)@,
                external@,
                uri::path_of(text::utf8(uri@)),
                data@,
            ),
    {
        let abs = uri::uri_to_path(uri);
        let Document { data, primary_root } = self.parse_buffer(abs.as_str(), data);
        match self.store.commit_save(abs.as_str(), primary_root, data) {
            DiskUpdate::Membership => self.recompute_all_structural(external),
            DiskUpdate::Content | DiskUpdate::Untouched => self.recompute_structural(
                abs.as_str(),
                external,
            ),
        }
    }

    /// Read what was found of a document under the configuration that covers it.
    fn take_found(&self, abs: &str, found: Option<FileData>) -> (r: Option<FileData>)
        ensures
            store::maybe_data(r) == found_as(self@, path::named(abs@), store::maybe_data(found)),
    {
        match found {
            Some(data) => Some(self.parse_buffer(abs, data).data),
            None => None,
        }
    }

    /// Commit a document that was saved without its text: take what was found on
    /// disk.
    pub fn commit_save_from_disk(
        &mut self,
        abs: &str,
        found: Option<FileData>,
        external: &PathMap<ExternalExistence>,
    )
        requires
            old(self).wf(),
            found_wf(found),
        ensures
            final(self).wf(),
            ({
                let (t, update) = committed_from_disk(
                    old(self)@,
                    path::named(abs@),
                    store::maybe_data(found),
                );
                final(self)@ == settled(t, external@, path::named(abs@), update)
            }),
    {
        let primary = self.deepest_root_for(abs);
        let found = self.take_found(abs, found);
        let update = self.store.commit_save_from_disk(abs, primary, found);
        self.settle(abs, update, external);
    }

    /// Compute what a write left to be computed.
    pub fn settle(
        &mut self,
        abs: &str,
        update: DiskUpdate,
        external: &PathMap<ExternalExistence>,
    )
        requires
            old(self).wf(),
        ensures
            final(self).wf(),
            final(self)@ == settled(old(self)@, external@, path::named(abs@), update),
    {
        match update {
            DiskUpdate::Membership => self.recompute_all_structural(external),
            DiskUpdate::Content => self.recompute_structural(abs, external),
            DiskUpdate::Untouched => {},
        }
    }

    /// Bring the saved copy of a document in line with what was found on disk,
    /// whether or not the document is open, and tell what is left to compute.
    pub fn apply_from_disk(&mut self, abs: &str, found: Option<FileData>) -> (r: DiskUpdate)
        requires
            old(self).wf(),
            found_wf(found),
        ensures
            final(self).wf(),
            (final(self)@, r) == read_back(
                old(self)@,
                path::named(abs@),
                store::maybe_data(found),
            ),
    {
        let primary = self.deepest_root_for(abs);
        let open = self.open_documents.contains_key(abs);
        let found = self.take_found(abs, found);
        self.store.apply_from_disk(abs, open, primary, found)
    }

    /// Bring the saved copy of a document in line with what was found on disk,
    /// and compute what that leaves.
    pub fn update_from_disk(
        &mut self,
        abs: &str,
        found: Option<FileData>,
        external: &PathMap<ExternalExistence>,
    )
        requires
            old(self).wf(),
            found_wf(found),
        ensures
            final(self).wf(),
            ({
                let (t, update) = read_back(
                    old(self)@,
                    path::named(abs@),
                    store::maybe_data(found),
                );
                final(self)@ == settled(t, external@, path::named(abs@), update)
            }),
    {
        let update = self.apply_from_disk(abs, found);
        self.settle(abs, update, external);
    }

    /// Drop a document outside every scope that was closed.
    pub fn remove_single_file(&mut self, uri: &str)
        requires
            old(self).wf(),
        ensures
            final(self).wf(),
            final(self)@ == dropped(old(self)@, uri::path_of(text::utf8(uri@))),
    {
        let abs = uri::uri_to_path(uri);
        let single = match self.store.current(abs.as_str()) {
            Some(doc) => doc.primary_root.is_none(),
            None => false,
        };
        if single {
            self.store.close_buffer(abs.as_str());
            self.store.evict_saved(abs.as_str());
        }
    }
}

// Laws.

/// Opening and editing never write the saved tier's texts: every saved document
/// stays, with its tree and its root.
pub proof fn law_buffers_never_write_the_saved_tier(
    s: State,
    external: Map<Seq<u8>, ExternalExistence>,
    abs: Seq<u8>,
    data: FileView,
    k: Seq<u8>,
)
    ensures
        ({
            let t = opened(s, external, abs, data);
            let u = changed(s, external, abs, data);
            &&& t.store.saved.contains_key(k) <==> s.store.saved.contains_key(k)
            &&& u.store.saved.contains_key(k) <==> s.store.saved.contains_key(k)
            &&& s.store.saved.contains_key(k) ==> t.store.saved[k].data.tree
                == s.store.saved[k].data.tree && u.store.saved[k].data.tree
                == s.store.saved[k].data.tree && t.store.saved[k].root == s.store.saved[k].root
                && u.store.saved[k].root == s.store.saved[k].root
        }),
{
}

/// What a client opened or edited is what it reads back.
pub proof fn law_a_buffer_reads_back(
    s: State,
    external: Map<Seq<u8>, ExternalExistence>,
    abs: Seq<u8>,
    data: FileView,
)
    ensures
        ({
            let t = opened(s, external, abs, data);
            let u = changed(s, external, abs, data);
            &&& t.store.current().contains_key(abs)
            &&& t.store.current()[abs].data.tree.text() == data.tree.text()
            &&& u.store.current().contains_key(abs)
            &&& u.store.current()[abs].data.tree == data.tree
        }),
{
}

/// A document that was opened with its saved text has no buffer of its own.
pub proof fn law_equal_buffers_are_shared(
    s: State,
    external: Map<Seq<u8>, ExternalExistence>,
    abs: Seq<u8>,
    data: FileView,
)
    requires
        s.store.saved.contains_key(abs),
        s.store.saved[abs].data.tree.text() == data.tree.text(),
    ensures
        !opened(s, external, abs, data).store.overlay.contains_key(abs),
{
}

/// Closing a document shows its saved copy again.
pub proof fn law_closing_shows_the_saved_copy(s: State, abs: Seq<u8>)
    ensures
        without_buffer(s, abs).store.saved == s.store.saved,
        s.store.saved.contains_key(abs) ==> without_buffer(s, abs).store.current()[abs]
            == s.store.saved[abs],
        !s.store.saved.contains_key(abs) ==> !without_buffer(s, abs).store.current().contains_key(
            abs,
        ),
{
}

/// What a client saved is saved, and its buffer is gone.
pub proof fn law_a_commit_saves_the_buffer(
    s: State,
    external: Map<Seq<u8>, ExternalExistence>,
    abs: Seq<u8>,
    data: FileView,
)
    ensures
        ({
            let t = committed(s, external, abs, data);
            &&& t.store.saved.contains_key(abs)
            &&& t.store.saved[abs].data.tree == data.tree
            &&& t.store.saved[abs].root == workspaces::placement(s, abs)
            &&& !t.store.overlay.contains_key(abs)
        }),
{
}

/// A watched file that changed under an open document leaves the client's text
/// alone, and the saved copy follows the disk.
pub proof fn law_watched_files_spare_open_texts(s: State, abs: Seq<u8>, found: Option<FileView>)
    requires
        s.open.contains_key(abs),
        s.store.current().contains_key(abs),
    ensures
        ({
            let t = read_back(s, abs, found).0;
            &&& t.store.current().contains_key(abs)
            &&& t.store.current()[abs] == s.store.current()[abs]
            &&& found matches Some(data) ==> t.store.saved.contains_key(abs)
                && t.store.saved[abs].data.tree.text() == data.tree.text()
            &&& found is None ==> !t.store.saved.contains_key(abs)
        }),
{
}

} // verus!
