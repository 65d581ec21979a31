//! Window queries and activation over the foreign-toplevel protocols.
//!
//! The wlr manager lists toplevels with their application id, title and state, and
//! can activate them; the ext list is a fallback that can do neither state nor
//! activation. Both announce toplevels as protocol objects whose events fill in a
//! [`Toplevel`] each.
//!
//! Neither protocol exposes window geometry, so every reported geometry is zero and
//! no window is ever found under a point.

use crate::conn;
use crate::conn::{BoundGlobal, Conn, Interface, MissingGlobal};
use crate::output::{AppRef, Rect, WindowInfo};
use crate::search;
use crate::text;
use vstd::prelude::*;
use vstd::string::*;

verus! {

/// Why windows could not be listed or activated.
#[derive(Debug)]
pub enum WmError {
    /// Neither foreign-toplevel protocol is advertised.
    NoProtocol,
    /// Activation needs the wlr protocol, which is not advertised.
    ActivationUnsupported,
    /// A global that activation needs is not advertised.
    Missing(MissingGlobal),
    /// No toplevel has the asked-for id.
    WindowNotFound(String),
}

/// A collected toplevel, whichever protocol it came over.
#[derive(Debug)]
pub struct Toplevel {
    /// The protocol object id in decimal, or the identifier that the ext protocol
    /// gave; empty once the toplevel is closed.
    pub id: String,
    pub app_id: Option<String>,
    pub title: Option<String>,
    pub activated: bool,
    pub minimized: bool,
    /// The place in the order of announcement.
    pub order: usize,
}

/// A toplevel as a mathematical value.
#[verifier::ext_equal]
pub struct ToplevelModel {
    pub id: Seq<char>,
    pub app_id: Option<Seq<char>>,
    pub title: Option<Seq<char>>,
    pub activated: bool,
    pub minimized: bool,
    pub order: int,
}

/// An optional text as a mathematical value.
pub open spec fn text_of(t: Option<String>) -> Option<Seq<char>> {
    match t {
        Some(s) => Some(s@),
        None => None,
    }
}

impl View for Toplevel {
    type V = ToplevelModel;

    open spec fn view(&self) -> ToplevelModel {
        ToplevelModel {
            id: self.id@,
            app_id: text_of(self.app_id),
            title: text_of(self.title),
            activated: self.activated,
            minimized: self.minimized,
            order: self.order as int,
        }
    }
}

/// An optional text that is more than white space.
pub open spec fn not_blank(t: Option<Seq<char>>) -> Option<Seq<char>> {
    match t {
        Some(s) => if text::trimmed(s).len() > 0 {
            Some(s)
        } else {
            None
        },
        None => None,
    }
}

/// A trimmed name without `.desktop` at its end.
pub open spec fn bundle_name(s: Seq<char>) -> Seq<char> {
    text::without_suffixes(text::trimmed(s), ".desktop"@)
}

impl ToplevelModel {
    /// What identifies the application: the application id, else the toplevel's id,
    /// whichever is the first that is more than white space.
    pub open spec fn bundle_id(self) -> Option<Seq<char>> {
        match not_blank(self.app_id) {
            Some(s) => Some(bundle_name(s)),
            None => match not_blank(Some(self.id)) {
                Some(s) => Some(bundle_name(s)),
                None => None,
            },
        }
    }

    /// The title, or the bundle id where there is no title to show.
    pub open spec fn display_name(self) -> Seq<char> {
        match not_blank(self.title) {
            Some(t) => t,
            None => self.bundle_id()->0,
        }
    }

    /// `w` reports this toplevel.
    pub open spec fn shown_as(self, w: WindowInfo) -> bool {
        &&& w.id@ == self.id
        &&& w.title@ == (match self.title {
            Some(t) => t,
            None => Seq::empty(),
        })
        &&& w.geometry == (Rect { x: 0, y: 0, width: 0, height: 0 })
        &&& w.pid is None
        &&& text_of(w.desktop_file_name) == not_blank(self.app_id)
        &&& text_of(w.resource_class) == not_blank(self.app_id)
        &&& w.resource_name is None
        &&& w.window_role is None
        &&& w.window_type is None
        &&& w.is_dock == Some(false)
        &&& w.is_desktop == Some(false)
        &&& w.is_visible == Some(!self.minimized)
        &&& w.is_minimized == Some(self.minimized)
        &&& w.is_normal_window == Some(true)
        &&& w.is_dialog == Some(false)
        &&& w.transient == Some(false)
        &&& w.transient_for is None
        &&& w.output is None
        &&& w.stacking_order == self.order
        &&& w.is_active == self.activated
        &&& w.exclude_from_capture == false
        &&& w.keep_above == Some(false)
    }

    /// `a` names this toplevel's application, if it has one.
    pub open spec fn named_as(self, a: Option<AppRef>) -> bool {
        match self.bundle_id() {
            Some(b) => a is Some && a->0.bundle_id@ == b && a->0.display_name@
                == self.display_name(),
            None => a is None,
        }
    }
}

/// Copies an optional text where it is more than white space.
fn copy_not_blank(t: &Option<String>) -> (r: Option<String>)
    ensures
        text_of(r) == not_blank(text_of(*t)),
{
    match t {
        Some(s) => if text::is_blank(s.as_str()) {
            None
        } else {
            Some(s.clone())
        },
        None => None,
    }
}

impl Toplevel {
    /// Reports the toplevel as a window.
    pub fn to_window_info(&self) -> (r: WindowInfo)
        ensures
            self@.shown_as(r),
    {
        WindowInfo {
            id: self.id.clone(),
            title: match &self.title {
                Some(t) => t.clone(),
                None => String::new(),
            },
            geometry: Rect { x: 0, y: 0, width: 0, height: 0 },
            pid: None,
            desktop_file_name: copy_not_blank(&self.app_id),
            resource_class: copy_not_blank(&self.app_id),
            resource_name: None,
            window_role: None,
            window_type: None,
            is_dock: Some(false),
            is_desktop: Some(false),
            is_visible: Some(!self.minimized),
            is_minimized: Some(self.minimized),
            is_normal_window: Some(true),
            is_dialog: Some(false),
            transient: Some(false),
            transient_for: None,
            output: None,
            stacking_order: self.order,
            is_active: self.activated,
            exclude_from_capture: false,
            keep_above: Some(false),
        }
    }

    /// What identifies the application: the application id, else the toplevel's id.
    pub fn bundle_id(&self) -> (r: Option<String>)
        ensures
            text_of(r) == self@.bundle_id(),
    {
        match &self.app_id {
            Some(a) => {
                let v: &str = text::trim(a.as_str());
                if !v.is_empty() {
                    return Some(text::trim_suffixes(v, ".desktop").to_owned());
                }
            },
            None => {},
        }
        let v: &str = text::trim(self.id.as_str());
        if !v.is_empty() {
            return Some(text::trim_suffixes(v, ".desktop").to_owned());
        }
        None
    }

    /// Names the toplevel's application.
    pub fn to_app_ref(&self) -> (r: Option<AppRef>)
        ensures
            self@.named_as(r),
    {
        match self.bundle_id() {
            Some(bundle_id) => {
                let display_name: String = match copy_not_blank(&self.title) {
                    Some(t) => t,
                    None => bundle_id.clone(),
                };
                Some(AppRef { bundle_id, display_name })
            },
            None => None,
        }
    }
}

/// The toplevels of a list as mathematical values.
pub open spec fn models(list: Seq<Toplevel>) -> Seq<ToplevelModel> {
    list.map_values(|t: Toplevel| t@)
}

/// The announced toplevels and, in the same order, the protocol objects that they are
/// known by. An object id names one object for as long as the client keeps it, which
/// here is until the connection ends.
#[derive(Debug)]
pub struct ToplevelList {
    pub toplevels: Vec<Toplevel>,
    pub handles: Vec<u32>,
}

/// A list of toplevels as a mathematical value.
#[verifier::ext_equal]
pub struct ListModel {
    pub toplevels: Seq<ToplevelModel>,
    pub handles: Seq<u32>,
}

impl View for ToplevelList {
    type V = ListModel;

    open spec fn view(&self) -> ListModel {
        ListModel { toplevels: models(self.toplevels@), handles: self.handles@ }
    }
}

/// A toplevel of which only the object id is known.
pub open spec fn announced(handle: u32, order: int) -> ToplevelModel {
    ToplevelModel {
        id: text::decimal(handle as nat),
        app_id: None,
        title: None,
        activated: false,
        minimized: false,
        order,
    }
}

/// Being the given object.
pub open spec fn same_object(handle: u32) -> spec_fn(u32) -> bool {
    |h: u32| h == handle
}

impl ListModel {
    /// Every toplevel has one object, no object occurs twice, and the order numbers
    /// count the announcements.
    pub open spec fn wf(self) -> bool {
        &&& self.toplevels.len() == self.handles.len()
        &&& self.handles.no_duplicates()
        &&& forall|i: int| 0 <= i < self.toplevels.len() ==> #[trigger] self.toplevels[i].order == i
    }

    /// Where an object stands in the list.
    pub open spec fn position(self, handle: u32) -> Option<int> {
        search::find(self.handles, same_object(handle))
    }

    /// The list with an object in it: unchanged where it was known.
    pub open spec fn with(self, handle: u32) -> ListModel {
        match self.position(handle) {
            Some(_) => self,
            None => ListModel {
                toplevels: self.toplevels.push(announced(handle, self.toplevels.len() as int)),
                handles: self.handles.push(handle),
            },
        }
    }

    /// The place of an object in the list that has it.
    pub open spec fn index(self, handle: u32) -> int {
        match self.position(handle) {
            Some(i) => i,
            None => self.toplevels.len() as int,
        }
    }

    /// The list after its toplevel for an object has become `t`.
    pub open spec fn set(self, handle: u32, t: ToplevelModel) -> ListModel {
        let l = self.with(handle);
        ListModel { toplevels: l.toplevels.update(self.index(handle), t), ..l }
    }

    /// The toplevel of an object.
    pub open spec fn get(self, handle: u32) -> ToplevelModel {
        self.with(handle).toplevels[self.index(handle)]
    }
}

/// Listing an object keeps the list in order.
proof fn lemma_with(l: ListModel, handle: u32)
    requires
        l.wf(),
    ensures
        l.with(handle).wf(),
        0 <= l.index(handle) < l.with(handle).toplevels.len(),
        l.with(handle).handles[l.index(handle)] == handle,
{
    search::lemma_find(l.handles, same_object(handle));
}

impl ToplevelList {
    /// No toplevel announced yet.
    pub fn new() -> (r: ToplevelList)
        ensures
            r@.wf(),
            r@.toplevels.len() == 0,
            r@.handles.len() == 0,
    {
        ToplevelList { toplevels: Vec::new(), handles: Vec::new() }
    }

    /// The place of an object in the list, which it joins where it is new.
    pub fn index_of(&mut self, handle: u32) -> (r: usize)
        requires
            old(self)@.wf(),
        ensures
            final(self)@ == old(self)@.with(handle),
            final(self)@.wf(),
            r == old(self)@.index(handle),
            r < final(self).toplevels@.len(),
    {
        let ghost before = self@;
        proof {
            lemma_with(before, handle);
        }
        let ghost p = same_object(handle);
        let mut i: usize = 0;
        while i < self.handles.len()
            invariant
                p == same_object(handle),
                before == self@,
                self@ == old(self)@,
                before.wf(),
                i <= self.handles@.len(),
                search::find(self.handles@, p) == search::find_from(self.handles@, p, i as int),
            decreases self.handles@.len() - i,
        {
            if self.handles[i] == handle {
                return i;
            }
            i = i + 1;
        }
        let order: usize = self.toplevels.len();
        self.toplevels.push(
            Toplevel {
                id: text::decimal_string(handle as u64),
                app_id: None,
                title: None,
                activated: false,
                minimized: false,
                order,
            },
        );
        self.handles.push(handle);
        proof {
            assert(self@.toplevels =~= before.with(handle).toplevels);
        }
        order
    }
}

/// An event of the wlr manager.
#[derive(Debug)]
pub enum ManagerEvent {
    Toplevel { handle: u32 },
    Finished,
    Other,
}

/// An event of a toplevel's object. The state is an array of 32-bit numbers in the
/// byte order of the machine.
#[derive(Debug)]
pub enum HandleEvent {
    AppId { app_id: String },
    Title { title: String },
    State { bytes: Vec<u8>, little_endian: bool },
    Identifier { identifier: String },
    Closed,
    Other,
}

/// Four bytes as a number.
pub open spec fn word(b0: u8, b1: u8, b2: u8, b3: u8, little_endian: bool) -> int {
    if little_endian {
        b0 + 0x100 * b1 + 0x1_0000 * b2 + 0x100_0000 * b3
    } else {
        b3 + 0x100 * b2 + 0x1_0000 * b1 + 0x100_0000 * b0
    }
}

/// The number at place `k` of an array of 32-bit numbers.
pub open spec fn word_at(bytes: Seq<u8>, k: int, little_endian: bool) -> int {
    word(bytes[4 * k], bytes[4 * k + 1], bytes[4 * k + 2], bytes[4 * k + 3], little_endian)
}

/// The array holds a number. Bytes that do not fill a number are passed over.
pub open spec fn has_word(bytes: Seq<u8>, value: int, little_endian: bool) -> bool {
    exists|k: int|
        0 <= k < bytes.len() / 4 && #[trigger] word_at(bytes, k, little_endian) == value
}

/// The number of the minimized state.
pub const STATE_MINIMIZED: u32 = 1;

/// The number of the activated state.
pub const STATE_ACTIVATED: u32 = 2;

/// Reads a state array: whether the toplevel is activated, and whether minimized.
pub fn read_state(bytes: &[u8], little_endian: bool) -> (r: (bool, bool))
    ensures
        r.0 == has_word(bytes@, STATE_ACTIVATED as int, little_endian),
        r.1 == has_word(bytes@, STATE_MINIMIZED as int, little_endian),
{
    let n: usize = bytes.len() / 4;
    let mut activated: bool = false;
    let mut minimized: bool = false;
    let mut k: usize = 0;
    while k < n
        invariant
            n == bytes@.len() / 4,
            bytes@.len() <= usize::MAX,
            k <= n,
            activated == (exists|j: int|
                0 <= j < k && #[trigger] word_at(bytes@, j, little_endian)
                    == STATE_ACTIVATED),
            minimized == (exists|j: int|
                0 <= j < k && #[trigger] word_at(bytes@, j, little_endian)
                    == STATE_MINIMIZED),
        decreases n - k,
    {
        let b0: u32 = bytes[4 * k] as u32;
        let b1: u32 = bytes[4 * k + 1] as u32;
        let b2: u32 = bytes[4 * k + 2] as u32;
        let b3: u32 = bytes[4 * k + 3] as u32;
        let value: u32 = if little_endian {
            b0 + 0x100 * b1 + 0x1_0000 * b2 + 0x100_0000 * b3
        } else {
            b3 + 0x100 * b2 + 0x1_0000 * b1 + 0x100_0000 * b0
        };
        proof {
            assert(value == word_at(bytes@, k as int, little_endian));
        }
        if value == STATE_MINIMIZED {
            minimized = true;
        }
        if value == STATE_ACTIVATED {
            activated = true;
        }
        k = k + 1;
    }
    (activated, minimized)
}

/// A toplevel after an event of its wlr object.
pub open spec fn after_wlr_event(t: ToplevelModel, event: HandleEvent) -> ToplevelModel {
    match event {
        HandleEvent::AppId { app_id } => ToplevelModel { app_id: Some(app_id@), ..t },
        HandleEvent::Title { title } => ToplevelModel { title: Some(title@), ..t },
        HandleEvent::State { bytes, little_endian } => ToplevelModel {
            activated: has_word(bytes@, STATE_ACTIVATED as int, little_endian),
            minimized: has_word(bytes@, STATE_MINIMIZED as int, little_endian),
            ..t
        },
        HandleEvent::Closed => ToplevelModel { id: Seq::empty(), ..t },
        _ => t,
    }
}

/// A toplevel after an event of its ext object.
pub open spec fn after_ext_event(t: ToplevelModel, event: HandleEvent) -> ToplevelModel {
    match event {
        HandleEvent::AppId { app_id } => ToplevelModel { app_id: Some(app_id@), ..t },
        HandleEvent::Title { title } => ToplevelModel { title: Some(title@), ..t },
        HandleEvent::Identifier { identifier } => if identifier@.len() > 0 {
            ToplevelModel { id: identifier@, ..t }
        } else {
            t
        },
        HandleEvent::Closed => ToplevelModel { id: Seq::empty(), ..t },
        _ => t,
    }
}

/// What the wlr protocol has announced.
#[derive(Debug)]
pub struct WlrState {
    pub list: ToplevelList,
    /// Set once the manager will announce nothing more.
    pub done: bool,
}

/// What the ext protocol has announced.
#[derive(Debug)]
pub struct ExtState {
    pub list: ToplevelList,
}

/// Replacing a toplevel of a list replaces its model.
proof fn lemma_set(before: ListModel, handle: u32, after: ToplevelList)
    requires
        before.wf(),
        after.handles@ == before.with(handle).handles,
        after.toplevels@.len() == before.with(handle).toplevels.len(),
        forall|i: int|
            0 <= i < after.toplevels@.len() && i != before.index(handle) ==> (
            #[trigger] after.toplevels@[i])@ == before.with(handle).toplevels[i],
        after.toplevels@[before.index(handle)]@.order == before.index(handle),
    ensures
        after@ == before.set(handle, after.toplevels@[before.index(handle)]@),
        after@.wf(),
{
    lemma_with(before, handle);
    let t = after.toplevels@[before.index(handle)]@;
    assert(after@.toplevels =~= before.set(handle, t).toplevels);
    assert forall|i: int| 0 <= i < after@.toplevels.len() implies #[trigger] after@.toplevels[i].order
        == i by {
        if i != before.index(handle) {
            assert(after.toplevels@[i]@ == before.with(handle).toplevels[i]);
        }
    }
}

impl WlrState {
    /// Nothing announced yet.
    pub fn new() -> (r: WlrState)
        ensures
            r.list@.wf(),
            r.list@.toplevels.len() == 0,
            !r.done,
    {
        WlrState { list: ToplevelList::new(), done: false }
    }

    /// Takes in an event of the manager.
    pub fn manager_event(&mut self, event: ManagerEvent)
        requires
            old(self).list@.wf(),
        ensures
            final(self).list@.wf(),
            final(self).list@ == (match event {
                ManagerEvent::Toplevel { handle } => old(self).list@.with(handle),
                _ => old(self).list@,
            }),
            final(self).done == (old(self).done || event is Finished),
    {
        match event {
            ManagerEvent::Toplevel { handle } => {
                let _ = self.list.index_of(handle);
            },
            ManagerEvent::Finished => {
                self.done = true;
            },
            ManagerEvent::Other => {},
        }
    }

    /// Takes in an event of a toplevel's object.
    pub fn handle_event(&mut self, handle: u32, event: HandleEvent)
        requires
            old(self).list@.wf(),
        ensures
            final(self).list@.wf(),
            final(self).list@ == old(self).list@.set(
                handle,
                after_wlr_event(old(self).list@.get(handle), event),
            ),
            final(self).done == old(self).done,
    {
        let ghost before = self.list@;
        let at: usize = self.list.index_of(handle);
        let t = &mut self.list.toplevels[at];
        match event {
            HandleEvent::AppId { app_id } => {
                t.app_id = Some(app_id);
            },
            HandleEvent::Title { title } => {
                t.title = Some(title);
            },
            HandleEvent::State { bytes, little_endian } => {
                let (activated, minimized): (bool, bool) = read_state(
                    bytes.as_slice(),
                    little_endian,
                );
                t.activated = activated;
                t.minimized = minimized;
            },
            HandleEvent::Closed => {
                t.id = String::new();
            },
            HandleEvent::Identifier { identifier: _ } => {},
            HandleEvent::Other => {},
        }
        proof {
            lemma_set(before, handle, self.list);
        }
    }
}

impl ExtState {
    /// Nothing announced yet.
    pub fn new() -> (r: ExtState)
        ensures
            r.list@.wf(),
            r.list@.toplevels.len() == 0,
    {
        ExtState { list: ToplevelList::new() }
    }

    /// Takes in the announcement of a toplevel.
    pub fn list_event(&mut self, handle: u32)
        requires
            old(self).list@.wf(),
        ensures
            final(self).list@.wf(),
            final(self).list@ == old(self).list@.with(handle),
    {
        let _ = self.list.index_of(handle);
    }

    /// Takes in an event of a toplevel's object.
    pub fn handle_event(&mut self, handle: u32, event: HandleEvent)
        requires
            old(self).list@.wf(),
        ensures
            final(self).list@.wf(),
            final(self).list@ == old(self).list@.set(
                handle,
                after_ext_event(old(self).list@.get(handle), event),
            ),
    {
        let ghost before = self.list@;
        let at: usize = self.list.index_of(handle);
        let t = &mut self.list.toplevels[at];
        match event {
            HandleEvent::AppId { app_id } => {
                t.app_id = Some(app_id);
            },
            HandleEvent::Title { title } => {
                t.title = Some(title);
            },
            HandleEvent::Identifier { identifier } => {
                if !identifier.as_str().is_empty() {
                    t.id = identifier;
                }
            },
            HandleEvent::Closed => {
                t.id = String::new();
            },
            HandleEvent::State { bytes: _, little_endian: _ } => {},
            HandleEvent::Other => {},
        }
        proof {
            lemma_set(before, handle, self.list);
        }
    }
}

/// The protocol to list toplevels over, and the global to bind for it.
#[derive(Clone, Copy, Debug, PartialEq, Eq)]
pub enum ToplevelProtocol {
    Wlr(BoundGlobal),
    Ext(BoundGlobal),
}

/// Chooses the protocol to list toplevels over: the wlr one where it is advertised,
/// else the ext one.
pub fn choose_protocol(conn: &Conn) -> (r: Result<ToplevelProtocol, WmError>)
    ensures
        match conn.globals.foreign_toplevel_wlr {
            Some(g) => r == Ok::<ToplevelProtocol, WmError>(
                ToplevelProtocol::Wlr(
                    conn::bound_at(g, Interface::ForeignToplevelWlr.spec_newest()),
                ),
            ),
            None => match conn.globals.foreign_toplevel_ext {
                Some(g) => r == Ok::<ToplevelProtocol, WmError>(
                    ToplevelProtocol::Ext(
                        conn::bound_at(g, Interface::ForeignToplevelExt.spec_newest()),
                    ),
                ),
                None => r is Err && r->Err_0 is NoProtocol,
            },
        },
{
    match conn.bind_foreign_toplevel_manager() {
        Ok(g) => Ok(ToplevelProtocol::Wlr(g)),
        Err(_) => match conn.bind_foreign_toplevel_list() {
            Ok(g) => Ok(ToplevelProtocol::Ext(g)),
            Err(_) => Err(WmError::NoProtocol),
        },
    }
}

/// A toplevel that has not been closed.
pub open spec fn is_open() -> spec_fn(ToplevelModel) -> bool {
    |t: ToplevelModel| t.id.len() > 0
}

/// The toplevels that have not been closed, in the order of announcement.
pub fn collect_toplevels(list: ToplevelList) -> (r: Vec<Toplevel>)
    ensures
        models(r@) == list@.toplevels.filter(is_open()),
{
    let mut rest: Vec<Toplevel> = list.toplevels;
    let ghost all = models(rest@);
    let mut open: Vec<Toplevel> = Vec::new();
    let ghost mut taken: int = 0;
    proof {
        reveal(Seq::filter);
        assert(all.take(0) =~= Seq::<ToplevelModel>::empty());
        assert(models(open@) =~= Seq::<ToplevelModel>::empty());
        assert(models(rest@) =~= all.skip(0));
    }
    while rest.len() > 0
        invariant
            0 <= taken <= all.len(),
            models(rest@) == all.skip(taken),
            rest@.len() == all.len() - taken,
            models(open@) == all.take(taken).filter(is_open()),
        decreases rest@.len(),
    {
        let ghost before = open@;
        let ghost was = rest@;
        let t: Toplevel = rest.remove(0);
        proof {
            assert(models(was)[0] == t@);
            assert(all.skip(taken)[0] == t@);
            assert(all[taken] == t@);
            reveal(Seq::filter);
            let next = all.take(taken + 1);
            assert(next.drop_last() =~= all.take(taken));
            assert(next.last() == t@);
            assert forall|i: int| 0 <= i < rest@.len() implies #[trigger] models(rest@)[i]
                == all.skip(taken + 1)[i] by {
                assert(rest@[i] == was[i + 1]);
                assert(models(was)[i + 1] == all.skip(taken)[i + 1]);
            }
            assert(models(rest@) =~= all.skip(taken + 1));
            taken = taken + 1;
        }
        if !t.id.as_str().is_empty() {
            open.push(t);
            proof {
                assert(models(open@) =~= models(before).push(t@));
            }
        }
    }
    proof {
        assert(all.take(all.len() as int) =~= all);
    }
    open
}

/// Reports toplevels as windows.
pub fn windows(toplevels: &[Toplevel]) -> (r: Vec<WindowInfo>)
    ensures
        r@.len() == toplevels@.len(),
        forall|i: int| 0 <= i < r@.len() ==> toplevels@[i]@.shown_as(#[trigger] r@[i]),
{
    let n: usize = toplevels.len();
    let mut list: Vec<WindowInfo> = Vec::new();
    let mut i: usize = 0;
    while i < n
        invariant
            n == toplevels@.len(),
            i <= n,
            list@.len() == i,
            forall|j: int| 0 <= j < i ==> toplevels@[j]@.shown_as(#[trigger] list@[j]),
        decreases n - i,
    {
        list.push(toplevels[i].to_window_info());
        i = i + 1;
    }
    list
}

/// A toplevel that is activated.
pub open spec fn is_activated() -> spec_fn(Toplevel) -> bool {
    |t: Toplevel| t.activated
}

/// The frontmost toplevel: the first that is activated, else the first.
pub open spec fn frontmost(toplevels: Seq<Toplevel>) -> Option<Toplevel> {
    match search::find(toplevels, is_activated()) {
        Some(i) => Some(toplevels[i]),
        None => if toplevels.len() > 0 {
            Some(toplevels[0])
        } else {
            None
        },
    }
}

/// The frontmost (activated) application, or that of the first toplevel if none is
/// activated.
pub fn frontmost_app(toplevels: &[Toplevel]) -> (r: Option<AppRef>)
    ensures
        match frontmost(toplevels@) {
            Some(t) => t@.named_as(r),
            None => r is None,
        },
{
    let n: usize = toplevels.len();
    let mut i: usize = 0;
    while i < n
        invariant
            n == toplevels@.len(),
            i <= n,
            search::find(toplevels@, is_activated()) == search::find_from(
                toplevels@,
                is_activated(),
                i as int,
            ),
        decreases n - i,
    {
        if toplevels[i].activated {
            return toplevels[i].to_app_ref();
        }
        i = i + 1;
    }
    if n > 0 {
        toplevels[0].to_app_ref()
    } else {
        None
    }
}

/// The application under a point: none is known, as no geometry is.
pub fn app_under_point(_x: i32, _y: i32) -> (r: Option<AppRef>)
    ensures
        r is None,
{
    None
}

/// The globals that activation binds: the wlr manager and a seat.
#[derive(Clone, Copy, Debug, PartialEq, Eq)]
pub struct ActivationGlobals {
    pub manager: BoundGlobal,
    pub seat: BoundGlobal,
}

/// Decides what activation binds. Only the wlr protocol can activate.
pub fn bind_for_activation(conn: &Conn) -> (r: Result<ActivationGlobals, WmError>)
    ensures
        match (conn.globals.foreign_toplevel_wlr, conn.globals.seat) {
            (None, _) => r is Err && r->Err_0 is ActivationUnsupported,
            (Some(_), None) => r == Err::<ActivationGlobals, WmError>(
                WmError::Missing(MissingGlobal(Interface::Seat)),
            ),
            (Some(g), Some(s)) => r == Ok::<ActivationGlobals, WmError>(
                ActivationGlobals {
                    manager: conn::bound_at(g, Interface::ForeignToplevelWlr.spec_newest()),
                    seat: conn::bound_at(s, Interface::Seat.spec_newest()),
                },
            ),
        },
{
    match conn.bind_foreign_toplevel_manager() {
        Ok(manager) => match conn.bind_seat() {
            Ok(seat) => Ok(ActivationGlobals { manager, seat }),
            Err(e) => Err(WmError::Missing(e)),
        },
        Err(_) => Err(WmError::ActivationUnsupported),
    }
}

/// A toplevel that has the given id.
pub open spec fn has_id(id: Seq<char>) -> spec_fn(Toplevel) -> bool {
    |t: Toplevel| t.id@ == id
}

/// The place of the window to activate among the announced toplevels, closed ones
/// among them.
pub fn activate_window(state: &WlrState, window: &str) -> (r: Result<usize, WmError>)
    ensures
        match search::find(state.list.toplevels@, has_id(window@)) {
            Some(i) => r is Ok && r->Ok_0 == i,
            None => r is Err && r->Err_0 is WindowNotFound && r->Err_0->WindowNotFound_0@
                == window@,
        },
{
    let toplevels = &state.list.toplevels;
    let mut i: usize = 0;
    while i < toplevels.len()
        invariant
            toplevels == &state.list.toplevels,
            i <= toplevels@.len(),
            search::find(toplevels@, has_id(window@)) == search::find_from(
                toplevels@,
                has_id(window@),
                i as int,
            ),
        decreases toplevels@.len() - i,
    {
        if text::same_text(toplevels[i].id.as_str(), window) {
            return Ok(i);
        }
        i = i + 1;
    }
    Err(WmError::WindowNotFound(window.to_owned()))
}

/// An object joins the list once, however often it is announced.
pub proof fn law_objects_join_once(l: ListModel, handle: u32)
    requires
        l.wf(),
    ensures
        l.with(handle).wf(),
        l.with(handle).with(handle) == l.with(handle),
{
    lemma_with(l, handle);
    let k = l.with(handle);
    search::lemma_find(k.handles, same_object(handle));
}

/// An event of one toplevel leaves every other toplevel as it was, and keeps the order
/// of the list.
pub proof fn law_toplevel_events_stay_apart(l: ListModel, handle: u32, event: HandleEvent, i: int)
    requires
        l.wf(),
        0 <= i < l.toplevels.len(),
        l.handles[i] != handle,
    ensures
        l.set(handle, after_wlr_event(l.get(handle), event)).toplevels[i] == l.toplevels[i],
        l.set(handle, after_ext_event(l.get(handle), event)).toplevels[i] == l.toplevels[i],
        l.set(handle, after_wlr_event(l.get(handle), event)).wf(),
        l.set(handle, after_ext_event(l.get(handle), event)).wf(),
{
    lemma_with(l, handle);
    search::lemma_find(l.handles, same_object(handle));
    assert(l.with(handle).toplevels[l.index(handle)].order == l.index(handle));
}

/// A closed toplevel is no longer listed.
pub proof fn law_closed_toplevels_drop_out(l: ListModel, handle: u32)
    requires
        l.wf(),
    ensures
        !is_open()(l.set(handle, after_wlr_event(l.get(handle), HandleEvent::Closed)).get(handle)),
        !is_open()(l.set(handle, after_ext_event(l.get(handle), HandleEvent::Closed)).get(handle)),
{
    lemma_with(l, handle);
    let a = l.set(handle, after_wlr_event(l.get(handle), HandleEvent::Closed));
    let b = l.set(handle, after_ext_event(l.get(handle), HandleEvent::Closed));
    search::lemma_find(l.handles, same_object(handle));
    search::lemma_find(a.handles, same_object(handle));
    search::lemma_find(b.handles, same_object(handle));
    assert(a.handles[a.index(handle)] == a.handles[l.index(handle)]);
}

/// The listed windows are open and in the order of their announcement.
pub proof fn law_listed_in_announcement_order(toplevels: Seq<ToplevelModel>)
    requires
        forall|i: int| 0 <= i < toplevels.len() ==> #[trigger] toplevels[i].order == i,
    ensures
        ({
            let listed = toplevels.filter(is_open());
            &&& forall|i: int|
                0 <= i < listed.len() ==> (#[trigger] listed[i]).id.len() > 0 && 0
                    <= listed[i].order < toplevels.len()
            &&& forall|i: int, j: int|
                0 <= i < j < listed.len() ==> (#[trigger] listed[i]).order < (
                #[trigger] listed[j]).order
        }),
    decreases toplevels.len(),
{
    reveal(Seq::filter);
    if toplevels.len() > 0 {
        let rest = toplevels.drop_last();
        assert forall|i: int| 0 <= i < rest.len() implies #[trigger] rest[i].order == i by {
            assert(toplevels[i].order == i);
        }
        law_listed_in_announcement_order(rest);
        assert(toplevels.last().order == toplevels.len() - 1);
    }
}

/// Every toplevel that has an id has that of its object.
pub open spec fn ids_name_objects(l: ListModel) -> bool {
    &&& l.wf()
    &&& forall|i: int|
        0 <= i < l.toplevels.len() ==> (#[trigger] l.toplevels[i]).id.len() == 0
            || l.toplevels[i].id == text::decimal(l.handles[i] as nat)
}

/// Over the wlr protocol ids always name objects: no announcement and no event changes
/// that.
pub proof fn law_wlr_ids_name_objects(l: ListModel, handle: u32, event: HandleEvent)
    requires
        ids_name_objects(l),
    ensures
        ids_name_objects(l.with(handle)),
        ids_name_objects(l.set(handle, after_wlr_event(l.get(handle), event))),
{
    lemma_with(l, handle);
    let k = l.with(handle);
    assert(ids_name_objects(k)) by {
        assert forall|i: int| 0 <= i < k.toplevels.len() implies (
        #[trigger] k.toplevels[i]).id.len() == 0 || k.toplevels[i].id == text::decimal(
            k.handles[i] as nat,
        ) by {
            if i < l.toplevels.len() {
                assert(k.toplevels[i] == l.toplevels[i]);
            }
        }
    }
    let at = l.index(handle);
    assert(k.toplevels[at].id.len() == 0 || k.toplevels[at].id == text::decimal(
        k.handles[at] as nat,
    ));
    assert(k.toplevels[at].order == at);
    let m = l.set(handle, after_wlr_event(l.get(handle), event));
    assert forall|i: int| 0 <= i < m.toplevels.len() implies (#[trigger] m.toplevels[i]).id.len()
        == 0 || m.toplevels[i].id == text::decimal(m.handles[i] as nat) by {
        if i != at {
            assert(m.toplevels[i] == k.toplevels[i]);
        }
    }
    assert forall|i: int| 0 <= i < m.toplevels.len() implies #[trigger] m.toplevels[i].order
        == i by {
        if i != at {
            assert(m.toplevels[i] == k.toplevels[i]);
        }
    }
}

/// The id that a listed window is reported with is one that activation finds it by.
pub proof fn law_listed_windows_can_be_activated(list: ToplevelList, i: int)
    requires
        ids_name_objects(list@),
        0 <= i < list.toplevels@.len(),
        is_open()(list.toplevels@[i]@),
    ensures
        search::find(list.toplevels@, has_id(list.toplevels@[i].id@)) == Some(i),
{
    let p = has_id(list.toplevels@[i].id@);
    search::lemma_find(list.toplevels@, p);
    let found = search::find(list.toplevels@, p);
    assert(p(list.toplevels@[i]));
    let j = found->0;
    assert(list@.toplevels[i].id == text::decimal(list@.handles[i] as nat));
    assert(list@.toplevels[j].id == text::decimal(list@.handles[j] as nat));
    text::lemma_decimal(list@.handles[i] as nat);
    text::lemma_decimal(list@.handles[j] as nat);
}

/// No toplevel of the list is activated or minimized.
pub open spec fn is_stateless(l: ListModel) -> bool {
    forall|i: int|
        0 <= i < l.toplevels.len() ==> !(#[trigger] l.toplevels[i]).activated
            && !l.toplevels[i].minimized
}

/// Over the ext protocol no toplevel is ever activated or minimized: no announcement and
/// no event changes that.
pub proof fn law_ext_toplevels_have_no_state(l: ListModel, handle: u32, event: HandleEvent)
    requires
        l.wf(),
        is_stateless(l),
    ensures
        is_stateless(l.with(handle)),
        is_stateless(l.set(handle, after_ext_event(l.get(handle), event))),
{
    lemma_with(l, handle);
    let k = l.with(handle);
    assert(is_stateless(k)) by {
        assert forall|i: int| 0 <= i < k.toplevels.len() implies !(
        #[trigger] k.toplevels[i]).activated && !k.toplevels[i].minimized by {
            if i < l.toplevels.len() {
                assert(k.toplevels[i] == l.toplevels[i]);
            }
        }
    }
    let at = l.index(handle);
    assert(!k.toplevels[at].activated && !k.toplevels[at].minimized);
    let m = l.set(handle, after_ext_event(l.get(handle), event));
    assert forall|i: int| 0 <= i < m.toplevels.len() implies !(
    #[trigger] m.toplevels[i]).activated && !m.toplevels[i].minimized by {
        if i != at {
            assert(m.toplevels[i] == k.toplevels[i]);
        }
    }
}

/// What is picked from a list without state has none.
proof fn lemma_picked_are_stateless(toplevels: Seq<ToplevelModel>, p: spec_fn(ToplevelModel) -> bool)
    requires
        forall|i: int|
            0 <= i < toplevels.len() ==> !(#[trigger] toplevels[i]).activated
                && !toplevels[i].minimized,
    ensures
        forall|i: int|
            0 <= i < toplevels.filter(p).len() ==> !(#[trigger] toplevels.filter(p)[i]).activated
                && !toplevels.filter(p)[i].minimized,
    decreases toplevels.len(),
{
    reveal(Seq::filter);
    if toplevels.len() > 0 {
        let rest = toplevels.drop_last();
        assert forall|i: int| 0 <= i < rest.len() implies !(#[trigger] rest[i]).activated
            && !rest[i].minimized by {
            assert(rest[i] == toplevels[i]);
        }
        lemma_picked_are_stateless(rest, p);
        assert(toplevels.last() == toplevels[toplevels.len() - 1]);
    }
}

/// Every window that is listed from toplevels without state is reported as visible, not
/// minimized and not active.
pub proof fn law_stateless_windows_are_neutral(l: ListModel, i: int, w: WindowInfo)
    requires
        is_stateless(l),
        0 <= i < l.toplevels.filter(is_open()).len(),
        l.toplevels.filter(is_open())[i].shown_as(w),
    ensures
        !w.is_active,
        w.is_visible == Some(true),
        w.is_minimized == Some(false),
{
    lemma_picked_are_stateless(l.toplevels, is_open());
}

/// The bytes hold a number below 256 among their 32-bit numbers: four bytes, the first of them
/// at a multiple of four, of which the lowest one is the number and the others are zero.
pub open spec fn holds_number(bytes: Seq<u8>, number: u8, little_endian: bool) -> bool {
    exists|k: int|
        #![trigger bytes[4 * k]]
        0 <= k && 4 * k + 3 < bytes.len() && if little_endian {
            bytes[4 * k] == number && bytes[4 * k + 1] == 0 && bytes[4 * k + 2] == 0 && bytes[4 * k
                + 3] == 0
        } else {
            bytes[4 * k] == 0 && bytes[4 * k + 1] == 0 && bytes[4 * k + 2] == 0 && bytes[4 * k + 3]
                == number
        }
}

proof fn lemma_holds_number(bytes: Seq<u8>, number: u8, little_endian: bool)
    ensures
        has_word(bytes, number as int, little_endian) <==> holds_number(
            bytes,
            number,
            little_endian,
        ),
{
    if has_word(bytes, number as int, little_endian) {
        let k = choose|k: int|
            0 <= k < bytes.len() / 4 && #[trigger] word_at(bytes, k, little_endian)
                == number as int;
        let _ = bytes[4 * k];
        assert(4 * k + 3 < bytes.len());
    }
    if holds_number(bytes, number, little_endian) {
        let k = choose|k: int|
            #![trigger bytes[4 * k]]
            0 <= k && 4 * k + 3 < bytes.len() && if little_endian {
                bytes[4 * k] == number && bytes[4 * k + 1] == 0 && bytes[4 * k + 2] == 0
                    && bytes[4 * k + 3] == 0
            } else {
                bytes[4 * k] == 0 && bytes[4 * k + 1] == 0 && bytes[4 * k + 2] == 0 && bytes[4 * k
                    + 3] == number
            };
        assert(word_at(bytes, k, little_endian) == number as int);
        assert(0 <= k < bytes.len() / 4);
    }
}

/// From the event to the report: after a state event a window is reported minimized exactly
/// where the array holds the number 1, and active exactly where it holds the number 2, each
/// whatever the other is. A window is visible where it is not minimized. Nothing else of the
/// report changes.
pub proof fn law_states_are_reported(
    t: ToplevelModel,
    bytes: Vec<u8>,
    little_endian: bool,
    was: WindowInfo,
    w: WindowInfo,
)
    requires
        t.shown_as(was),
        after_wlr_event(t, HandleEvent::State { bytes, little_endian }).shown_as(w),
    ensures
        w.is_minimized == Some(holds_number(bytes@, 1, little_endian)),
        w.is_visible == Some(!holds_number(bytes@, 1, little_endian)),
        w.is_active == holds_number(bytes@, 2, little_endian),
        w.id@ == was.id@,
        w.title@ == was.title@,
        text_of(w.desktop_file_name) == text_of(was.desktop_file_name),
        text_of(w.resource_class) == text_of(was.resource_class),
        w.stacking_order == was.stacking_order,
{
    lemma_holds_number(bytes@, 1, little_endian);
    lemma_holds_number(bytes@, 2, little_endian);
}

/// What reading a state array gives: activated for the number 2, minimized for the number 1.
pub proof fn law_states_are_numbers(bytes: Seq<u8>, little_endian: bool)
    ensures
        has_word(bytes, STATE_ACTIVATED as int, little_endian) <==> holds_number(
            bytes,
            2,
            little_endian,
        ),
        has_word(bytes, STATE_MINIMIZED as int, little_endian) <==> holds_number(
            bytes,
            1,
            little_endian,
        ),
{
    lemma_holds_number(bytes, 1, little_endian);
    lemma_holds_number(bytes, 2, little_endian);
}

/// An application id that is more than white space.
pub open spec fn is_told(s: Seq<char>) -> bool {
    exists|i: int| 0 <= i < s.len() && !text::is_white_space(#[trigger] s[i])
}

proof fn lemma_told(s: Seq<char>)
    ensures
        is_told(s) <==> text::trimmed(s).len() > 0,
{
    text::law_blank_is_all_white_space(s);
}

/// From the event to the report, over either protocol: a window is reported with the title and
/// the application id that it last said. The id counts only where it is more than white space,
/// and is then both the desktop file and the resource class.
pub proof fn law_titles_and_ids_are_reported(
    t: ToplevelModel,
    said: String,
    was: WindowInfo,
    titled: WindowInfo,
    named: WindowInfo,
)
    requires
        t.shown_as(was),
        after_wlr_event(t, HandleEvent::Title { title: said }).shown_as(titled)
            || after_ext_event(t, HandleEvent::Title { title: said }).shown_as(titled),
        after_wlr_event(t, HandleEvent::AppId { app_id: said }).shown_as(named)
            || after_ext_event(t, HandleEvent::AppId { app_id: said }).shown_as(named),
    ensures
        titled.title@ == said@,
        titled.id@ == was.id@,
        text_of(titled.resource_class) == text_of(was.resource_class),
        text_of(titled.desktop_file_name) == text_of(was.desktop_file_name),
        named.title@ == was.title@,
        named.id@ == was.id@,
        is_told(said@) ==> {
            &&& named.resource_class is Some
            &&& named.resource_class->0@ == said@
            &&& named.desktop_file_name is Some
            &&& named.desktop_file_name->0@ == said@
        },
        !is_told(said@) ==> named.resource_class is None && named.desktop_file_name is None,
        titled.is_active == was.is_active && named.is_active == was.is_active,
        titled.is_minimized == was.is_minimized && named.is_minimized == was.is_minimized,
        titled.is_visible == was.is_visible && named.is_visible == was.is_visible,
{
    lemma_told(said@);
}

/// Everything that a window report says of a toplevel, and what it always says.
pub proof fn law_windows_report_their_toplevel(t: Toplevel, w: WindowInfo)
    requires
        t@.shown_as(w),
    ensures
        w.id@ == t.id@,
        t.title matches Some(title) ==> w.title@ == title@,
        t.title is None ==> w.title@.len() == 0,
        t.app_id matches Some(a) ==> {
            &&& is_told(a@) ==> w.resource_class is Some && w.resource_class->0@ == a@
            &&& is_told(a@) ==> w.desktop_file_name is Some && w.desktop_file_name->0@ == a@
            &&& !is_told(a@) ==> w.resource_class is None && w.desktop_file_name is None
        },
        t.app_id is None ==> w.resource_class is None && w.desktop_file_name is None,
        w.is_active == t.activated,
        w.is_minimized == Some(t.minimized),
        w.is_visible == Some(!t.minimized),
        w.stacking_order == t.order,
        (w.geometry.x, w.geometry.y, w.geometry.width, w.geometry.height) == (
            0i32,
            0i32,
            0i32,
            0i32,
        ),
        w.pid is None && w.resource_name is None && w.window_role is None,
        w.window_type is None && w.transient_for is None && w.output is None,
        w.is_dock == Some(false) && w.is_desktop == Some(false) && w.is_dialog == Some(false),
        w.is_normal_window == Some(true) && w.transient == Some(false),
        w.keep_above == Some(false) && !w.exclude_from_capture,
{
    if let Some(a) = t.app_id {
        lemma_told(a@);
    }
}

/// How an application is named. Its bundle id is the application id, or the toplevel's id
/// where that is nothing but white space, trimmed and without any `.desktop` at its end; its
/// display name is the title where that is more than white space, else the bundle id. It is
/// named exactly where one of the two ids is more than white space.
pub proof fn law_how_applications_are_named(t: Toplevel, a: Option<AppRef>)
    requires
        t@.named_as(a),
    ensures
        a is Some <==> (t.app_id is Some && is_told(t.app_id->0@)) || is_told(t.id@),
        ({
            let said = if t.app_id is Some && is_told(t.app_id->0@) {
                t.app_id->0@
            } else {
                t.id@
            };
            a matches Some(app) ==> {
                &&& app.bundle_id@ == text::without_suffixes(text::trimmed(said), ".desktop"@)
                &&& t.title is Some && is_told(t.title->0@) ==> app.display_name@ == t.title->0@
                &&& t.title is None || !is_told(t.title->0@) ==> app.display_name@
                    == app.bundle_id@
            }
        }),
{
    if let Some(s) = t.app_id {
        lemma_told(s@);
    }
    if let Some(s) = t.title {
        lemma_told(s@);
    }
    lemma_told(t.id@);
}

/// Which toplevel is frontmost: the first activated one, whatever comes before it, and where
/// none is activated the first of all.
pub proof fn law_what_is_frontmost(toplevels: Seq<Toplevel>, i: int)
    requires
        0 <= i < toplevels.len(),
    ensures
        toplevels[i].activated && (forall|j: int| 0 <= j < i ==> !(#[trigger] toplevels[j]).activated)
            ==> frontmost(toplevels) == Some(toplevels[i]),
        (forall|j: int| 0 <= j < toplevels.len() ==> !(#[trigger] toplevels[j]).activated)
            ==> frontmost(toplevels) == Some(toplevels[0]),
{
    search::lemma_find(toplevels, is_activated());
}

/// Which window is activated: the first that has the id, and none where no window has it.
pub proof fn law_what_is_activated(toplevels: Seq<Toplevel>, window: Seq<char>, i: int)
    ensures
        search::find(toplevels, has_id(window)) == Some(i) <==> 0 <= i < toplevels.len()
            && toplevels[i].id@ == window && forall|j: int|
            0 <= j < i ==> (#[trigger] toplevels[j]).id@ != window,
        search::find(toplevels, has_id(window)) is None <==> forall|j: int|
            0 <= j < toplevels.len() ==> (#[trigger] toplevels[j]).id@ != window,
{
    search::lemma_find(toplevels, has_id(window));
    let p = has_id(window);
    assert forall|j: int| 0 <= j < toplevels.len() implies p(toplevels[j]) == ((
    #[trigger] toplevels[j]).id@ == window) by {}
}

/// An event reaches the toplevel of its object and puts it in the object's place: an object
/// that is known keeps its place, a new one comes last, under the decimal number of the
/// object and with nothing else known.
pub proof fn law_events_reach_their_toplevel(l: ListModel, handle: u32, t: ToplevelModel, i: int)
    requires
        l.wf(),
    ensures
        l.set(handle, t).get(handle) == t,
        0 <= i < l.handles.len() && l.handles[i] == handle ==> {
            &&& l.get(handle) == l.toplevels[i]
            &&& l.set(handle, t).toplevels[i] == t
            &&& l.set(handle, t).handles == l.handles
        },
        !l.handles.contains(handle) ==> {
            &&& l.with(handle).handles == l.handles.push(handle)
            &&& l.with(handle).toplevels.len() == l.toplevels.len() + 1
            &&& l.get(handle).id == text::decimal(handle as nat)
            &&& l.get(handle).title is None
            &&& l.get(handle).app_id is None
            &&& !l.get(handle).activated
            &&& !l.get(handle).minimized
            &&& l.get(handle).order == l.toplevels.len()
        },
{
    lemma_with(l, handle);
    search::lemma_find(l.handles, same_object(handle));
    let m = l.set(handle, t);
    search::lemma_find(m.handles, same_object(handle));
    assert(m.handles[m.index(handle)] == m.handles[l.index(handle)]);
    if 0 <= i < l.handles.len() && l.handles[i] == handle {
        assert(same_object(handle)(l.handles[i]));
        assert(l.handles[l.index(handle)] == l.handles[i]);
    }
    if !l.handles.contains(handle) {
        if let Some(k) = l.position(handle) {
            assert(l.handles[k] == handle);
        }
    }
}

/// Closing a toplevel takes its id and nothing else; over the ext protocol an identifier
/// becomes the id where it is not empty, and over the wlr protocol it changes nothing.
pub proof fn law_what_ids_are(t: ToplevelModel, identifier: String)
    ensures
        after_wlr_event(t, HandleEvent::Closed).id.len() == 0,
        after_ext_event(t, HandleEvent::Closed).id.len() == 0,
        after_wlr_event(t, HandleEvent::Identifier { identifier }) == t,
        after_ext_event(t, HandleEvent::Identifier { identifier }).id == (if identifier@.len() > 0 {
            identifier@
        } else {
            t.id
        }),
        after_wlr_event(t, HandleEvent::Other) == t,
        after_ext_event(t, HandleEvent::Other) == t,
{
}

/// Every toplevel that has an id is listed, and nothing else is.
pub proof fn law_what_is_listed(toplevels: Seq<ToplevelModel>, t: ToplevelModel)
    ensures
        toplevels.filter(is_open()).contains(t) <==> toplevels.contains(t) && t.id.len() > 0,
    decreases toplevels.len(),
{
    reveal(Seq::filter);
    if toplevels.len() > 0 {
        let rest = toplevels.drop_last();
        law_what_is_listed(rest, t);
        let all = toplevels.filter(is_open());
        let some = rest.filter(is_open());
        if toplevels.contains(t) {
            let i = choose|i: int| 0 <= i < toplevels.len() && toplevels[i] == t;
            if i < rest.len() {
                assert(rest[i] == t);
            }
            if t.id.len() > 0 {
                if i < rest.len() {
                    let j = choose|j: int| 0 <= j < some.len() && some[j] == t;
                    assert(all[j] == t);
                } else {
                    assert(all[all.len() - 1] == t);
                }
            }
        }
        if all.contains(t) {
            let j = choose|j: int| 0 <= j < all.len() && all[j] == t;
            if j < some.len() {
                assert(some[j] == t);
                let i = choose|i: int| 0 <= i < rest.len() && rest[i] == t;
                assert(toplevels[i] == t);
            } else {
                assert(toplevels[toplevels.len() - 1] == t);
            }
        }
    }
}

} // verus!
