//! Output enumeration: collecting what the compositor says of each output, and
//! reporting the outputs as screens.
//!
//! Wayland has no primary output. The one at logical (0, 0) is taken as primary and
//! active; if none sits there, the first enumerated one.

use crate::conn::{BoundGlobal, OutputEntry};
use crate::output::{Rect, ScaleRatio, Screen};
use crate::search;
use crate::text;
use vstd::prelude::*;
use vstd::string::*;

verus! {

/// Why an output could not be selected.
#[derive(Debug)]
pub enum ScreensError {
    /// The compositor advertises no output.
    NoOutputs,
    /// No output has the asked-for name.
    DisplayNotFound(String),
}

/// An event of a `wl_output`.
#[derive(Debug)]
pub enum OutputEvent {
    Scale { factor: i32 },
    Name { name: String },
    /// A mode; `flags` is `None` where a flag is set that is not known.
    Mode { flags: Option<u32>, width: i32, height: i32, refresh: i32 },
    Other,
}

/// An event of a `zxdg_output_v1`.
#[derive(Debug)]
pub enum XdgOutputEvent {
    LogicalPosition { x: i32, y: i32 },
    LogicalSize { width: i32, height: i32 },
    Name { name: String },
    Other,
}

impl Clone for OutputEntry {
    fn clone(&self) -> (r: OutputEntry)
        ensures
            r == *self,
    {
        OutputEntry {
            wl_output: self.wl_output,
            registry_name: self.registry_name,
            name: copy_name(&self.name),
            scale: self.scale,
            logical_x: self.logical_x,
            logical_y: self.logical_y,
            logical_width: self.logical_width,
            logical_height: self.logical_height,
            mode_width: self.mode_width,
            mode_height: self.mode_height,
            refresh_millihz: self.refresh_millihz,
        }
    }
}

/// Copies an optional text.
pub fn copy_name(name: &Option<String>) -> (r: Option<String>)
    ensures
        r == *name,
{
    match name {
        Some(s) => Some(s.clone()),
        None => None,
    }
}

/// An output of which nothing is known yet.
pub open spec fn fresh_entry(e: OutputEntry, wl_output: u32, registry_name: u32) -> bool {
    e == (OutputEntry {
        wl_output,
        registry_name,
        name: None,
        scale: 1,
        logical_x: None,
        logical_y: None,
        logical_width: None,
        logical_height: None,
        mode_width: None,
        mode_height: None,
        refresh_millihz: None,
    })
}

/// An output after one of its `wl_output` events. Only the current mode counts, and
/// a negative refresh rate counts as zero.
pub open spec fn after_output_event(e: OutputEntry, event: OutputEvent) -> OutputEntry {
    match event {
        OutputEvent::Scale { factor } => OutputEntry { scale: factor, ..e },
        OutputEvent::Name { name } => OutputEntry { name: Some(name), ..e },
        OutputEvent::Mode { flags, width, height, refresh } => if flags matches Some(bits) && bits
            % 2 == 1 {
            OutputEntry {
                mode_width: Some(width),
                mode_height: Some(height),
                refresh_millihz: Some(
                    if refresh < 0 {
                        0
                    } else {
                        refresh as u32
                    },
                ),
                ..e
            }
        } else {
            e
        },
        OutputEvent::Other => e,
    }
}

/// An output after one of its xdg-output events. The xdg-output name counts only
/// while no other is known.
pub open spec fn after_xdg_event(e: OutputEntry, event: XdgOutputEvent) -> OutputEntry {
    match event {
        XdgOutputEvent::LogicalPosition { x, y } => OutputEntry {
            logical_x: Some(x),
            logical_y: Some(y),
            ..e
        },
        XdgOutputEvent::LogicalSize { width, height } => OutputEntry {
            logical_width: Some(width),
            logical_height: Some(height),
            ..e
        },
        XdgOutputEvent::Name { name } => if e.name is None {
            OutputEntry { name: Some(name), ..e }
        } else {
            e
        },
        XdgOutputEvent::Other => e,
    }
}

/// The outputs while their events come in.
#[derive(Debug)]
pub struct ScreenState {
    pub entries: Vec<OutputEntry>,
}

/// The position of the output that an object id belongs to.
pub open spec fn output_index(entries: Seq<OutputEntry>, proxy: u32) -> Option<int> {
    search::find(entries, |e: OutputEntry| e.wl_output == proxy)
}

impl ScreenState {
    /// Starts with one entry for each bound output: its registry global and the
    /// object id that it was bound to.
    pub fn new(outputs: &[BoundGlobal], bound: &[u32]) -> (r: ScreenState)
        requires
            bound@.len() == outputs@.len(),
        ensures
            r.entries@.len() == outputs@.len(),
            forall|i: int|
                0 <= i < outputs@.len() ==> fresh_entry(
                    #[trigger] r.entries@[i],
                    bound@[i],
                    outputs@[i].name,
                ),
    {
        let mut entries: Vec<OutputEntry> = Vec::new();
        let n: usize = outputs.len();
        let mut i: usize = 0;
        while i < n
            invariant
                n == outputs@.len(),
                bound@.len() == n,
                i <= n,
                entries@.len() == i,
                forall|j: int|
                    0 <= j < i ==> fresh_entry(#[trigger] entries@[j], bound@[j], outputs@[j].name),
            decreases n - i,
        {
            entries.push(
                OutputEntry {
                    wl_output: bound[i],
                    registry_name: outputs[i].name,
                    name: None,
                    scale: 1,
                    logical_x: None,
                    logical_y: None,
                    logical_width: None,
                    logical_height: None,
                    mode_width: None,
                    mode_height: None,
                    refresh_millihz: None,
                },
            );
            i = i + 1;
        }
        ScreenState { entries }
    }

    /// The position of the output whose bound `wl_output` has the given object id.
    pub fn entry_for_output(&self, proxy: u32) -> (r: Option<usize>)
        ensures
            match output_index(self.entries@, proxy) {
                Some(i) => r is Some && r->0 == i,
                None => r is None,
            },
    {
        let ghost p = |e: OutputEntry| e.wl_output == proxy;
        let mut i: usize = 0;
        while i < self.entries.len()
            invariant
                p == (|e: OutputEntry| e.wl_output == proxy),
                i <= self.entries@.len(),
                search::find(self.entries@, p) == search::find_from(self.entries@, p, i as int),
            decreases self.entries@.len() - i,
        {
            if self.entries[i].wl_output == proxy {
                return Some(i);
            }
            i = i + 1;
        }
        None
    }

    /// Takes in an event of a `wl_output`; one of an unknown output is passed over.
    pub fn output_event(&mut self, proxy: u32, event: OutputEvent)
        ensures
            final(self).entries@ == match output_index(old(self).entries@, proxy) {
                Some(i) => old(self).entries@.update(
                    i,
                    after_output_event(old(self).entries@[i], event),
                ),
                None => old(self).entries@,
            },
    {
        proof {
            search::lemma_find(self.entries@, |e: OutputEntry| e.wl_output == proxy);
        }
        let at: usize = match self.entry_for_output(proxy) {
            Some(i) => i,
            None => {
                return ;
            },
        };
        let entry = &mut self.entries[at];
        match event {
            OutputEvent::Scale { factor } => {
                entry.scale = factor;
            },
            OutputEvent::Name { name } => {
                entry.name = Some(name);
            },
            OutputEvent::Mode { flags, width, height, refresh } => {
                let is_current: bool = match flags {
                    Some(bits) => bits % 2 == 1,
                    None => false,
                };
                if is_current {
                    entry.mode_width = Some(width);
                    entry.mode_height = Some(height);
                    entry.refresh_millihz = Some(
                        if refresh < 0 {
                            0
                        } else {
                            refresh as u32
                        },
                    );
                }
            },
            OutputEvent::Other => {},
        }
    }

    /// Takes in an event of the xdg-output of the entry at `index`.
    pub fn xdg_event(&mut self, index: usize, event: XdgOutputEvent)
        ensures
            final(self).entries@ == (if index < old(self).entries@.len() {
                old(self).entries@.update(
                    index as int,
                    after_xdg_event(old(self).entries@[index as int], event),
                )
            } else {
                old(self).entries@
            }),
    {
        if index >= self.entries.len() {
            return ;
        }
        let entry = &mut self.entries[index];
        match event {
            XdgOutputEvent::LogicalPosition { x, y } => {
                entry.logical_x = Some(x);
                entry.logical_y = Some(y);
            },
            XdgOutputEvent::LogicalSize { width, height } => {
                entry.logical_width = Some(width);
                entry.logical_height = Some(height);
            },
            XdgOutputEvent::Name { name } => {
                if entry.name.is_none() {
                    entry.name = Some(name);
                }
            },
            XdgOutputEvent::Other => {},
        }
    }
}

/// The geometry and scale of an output, apart from the connection it came over.
#[derive(Debug)]
pub struct OutputGeometry {
    pub registry_name: u32,
    pub name: Option<String>,
    pub scale: i32,
    pub logical_x: Option<i32>,
    pub logical_y: Option<i32>,
    pub logical_width: Option<i32>,
    pub logical_height: Option<i32>,
    pub mode_width: Option<i32>,
    pub mode_height: Option<i32>,
    pub refresh_millihz: Option<u32>,
}

/// The geometry of an entry.
pub open spec fn geometry_of(e: OutputEntry) -> OutputGeometry {
    OutputGeometry {
        registry_name: e.registry_name,
        name: e.name,
        scale: e.scale,
        logical_x: e.logical_x,
        logical_y: e.logical_y,
        logical_width: e.logical_width,
        logical_height: e.logical_height,
        mode_width: e.mode_width,
        mode_height: e.mode_height,
        refresh_millihz: e.refresh_millihz,
    }
}

impl OutputGeometry {
    pub fn from_entry(entry: &OutputEntry) -> (r: OutputGeometry)
        ensures
            r == geometry_of(*entry),
    {
        OutputGeometry {
            registry_name: entry.registry_name,
            name: copy_name(&entry.name),
            scale: entry.scale,
            logical_x: entry.logical_x,
            logical_y: entry.logical_y,
            logical_width: entry.logical_width,
            logical_height: entry.logical_height,
            mode_width: entry.mode_width,
            mode_height: entry.mode_height,
            refresh_millihz: entry.refresh_millihz,
        }
    }

    /// The integer scale, at least one.
    pub open spec fn whole_scale(&self) -> i32 {
        if self.scale < 1 {
            1
        } else {
            self.scale
        }
    }

    /// Position and size in logical pixels: those of xdg-output where it gave them,
    /// else the origin, and the mode's size divided by the integer scale.
    pub open spec fn logical_rect(&self) -> Rect {
        let sized = self.logical_width is Some && self.logical_height is Some;
        Rect {
            x: or_zero(self.logical_x),
            y: or_zero(self.logical_y),
            width: if sized {
                self.logical_width->0
            } else {
                quotient_toward_zero(or_zero(self.mode_width) as int, self.whole_scale() as int) as i32
            },
            height: if sized {
                self.logical_height->0
            } else {
                quotient_toward_zero(or_zero(self.mode_height) as int, self.whole_scale() as int) as i32
            },
        }
    }

    /// The ratio of the physical to the logical width where both are known and the
    /// logical one is positive, else the integer scale.
    pub open spec fn scale_ratio(&self) -> ScaleRatio {
        if self.mode_width is Some && self.logical_width is Some && self.logical_width->0 > 0 {
            ScaleRatio { physical: self.mode_width->0, logical: self.logical_width->0 }
        } else {
            ScaleRatio { physical: self.whole_scale(), logical: 1 }
        }
    }

    /// The output's name, or `output-` and its registry name.
    pub open spec fn display_name(&self) -> Seq<char> {
        match self.name {
            Some(n) => n@,
            None => "output-"@ + text::decimal(self.registry_name as nat),
        }
    }

    /// `s` reports this output.
    pub open spec fn shown_as(&self, s: &Screen, is_primary: bool) -> bool {
        &&& s.id@ == self.display_name()
        &&& s.name@ == self.display_name()
        &&& s.geometry == self.logical_rect()
        &&& s.scale == Some(self.scale_ratio())
        &&& s.refresh_millihz == self.refresh_millihz
        &&& s.is_active == is_primary
        &&& s.is_primary == is_primary
    }
}

/// A coordinate that may be missing.
pub open spec fn or_zero(n: Option<i32>) -> i32 {
    match n {
        Some(v) => v,
        None => 0,
    }
}

fn unwrap_or_zero(n: Option<i32>) -> (r: i32)
    ensures
        r == or_zero(n),
{
    match n {
        Some(v) => v,
        None => 0,
    }
}

/// Division that drops the fraction, whatever the sign.
pub open spec fn quotient_toward_zero(n: int, d: int) -> int {
    if n >= 0 {
        n / d
    } else {
        -((-n) / d)
    }
}

fn divide(n: i32, d: i32) -> (r: i32)
    requires
        d >= 1,
    ensures
        r == quotient_toward_zero(n as int, d as int),
{
    let wide: i64 = n as i64;
    let by: i64 = d as i64;
    if wide >= 0 {
        proof {
            lemma_quotient_shrinks(n as int, d as int);
        }
        (wide / by) as i32
    } else {
        proof {
            lemma_quotient_shrinks(-n, d as int);
        }
        (-((-wide) / by)) as i32
    }
}

proof fn lemma_quotient_shrinks(n: int, d: int)
    requires
        n >= 0,
        d >= 1,
    ensures
        0 <= n / d <= n,
{
    assert(0 <= n / d <= n) by (nonlinear_arith)
        requires
            n >= 0,
            d >= 1,
    ;
}

/// The name that an output is reported under.
fn shown_name(name: &Option<String>, registry_name: u32) -> (r: String)
    ensures
        r@ == (match *name {
            Some(n) => n@,
            None => "output-"@ + text::decimal(registry_name as nat),
        }),
{
    match name {
        Some(n) => n.clone(),
        None => {
            let mut s: String = "output-".to_owned();
            let number: String = text::decimal_string(registry_name as u64);
            s.append(number.as_str());
            s
        },
    }
}

/// Reports an output as a screen.
pub fn to_screen(geom: &OutputGeometry, is_primary: bool) -> (r: Screen)
    ensures
        geom.shown_as(&r, is_primary),
{
    let x: i32 = unwrap_or_zero(geom.logical_x);
    let y: i32 = unwrap_or_zero(geom.logical_y);
    let whole: i32 = if geom.scale < 1 {
        1
    } else {
        geom.scale
    };
    let (width, height): (i32, i32) = match (geom.logical_width, geom.logical_height) {
        (Some(w), Some(h)) => (w, h),
        _ => (
            divide(unwrap_or_zero(geom.mode_width), whole),
            divide(unwrap_or_zero(geom.mode_height), whole),
        ),
    };
    let scale = match (geom.mode_width, geom.logical_width) {
        (Some(mode_w), Some(logical_w)) => if logical_w > 0 {
            ScaleRatio { physical: mode_w, logical: logical_w }
        } else {
            ScaleRatio { physical: whole, logical: 1 }
        },
        _ => ScaleRatio { physical: whole, logical: 1 },
    };
    let name: String = shown_name(&geom.name, geom.registry_name);
    Screen {
        id: name.clone(),
        name,
        geometry: Rect { x, y, width, height },
        scale: Some(scale),
        refresh_millihz: geom.refresh_millihz,
        is_active: is_primary,
        is_primary,
    }
}

/// An output that sits at the logical origin.
pub open spec fn at_origin(e: OutputEntry) -> bool {
    e.logical_x == Some(0i32) && e.logical_y == Some(0i32)
}

/// The output that counts as primary: the first at the origin, else the first.
pub open spec fn primary_index(entries: Seq<OutputEntry>) -> int {
    match search::find(entries, |e: OutputEntry| at_origin(e)) {
        Some(i) => i,
        None => 0,
    }
}

fn find_primary(entries: &[OutputEntry]) -> (r: usize)
    requires
        entries@.len() > 0,
    ensures
        r == primary_index(entries@),
        r < entries@.len(),
{
    let ghost p = |e: OutputEntry| at_origin(e);
    let n: usize = entries.len();
    let mut i: usize = 0;
    while i < n
        invariant
            n == entries@.len(),
            p == (|e: OutputEntry| at_origin(e)),
            i <= n,
            search::find(entries@, p) == search::find_from(entries@, p, i as int),
        decreases n - i,
    {
        let here: bool = match (entries[i].logical_x, entries[i].logical_y) {
            (Some(x), Some(y)) => x == 0 && y == 0,
            _ => false,
        };
        if here {
            return i;
        }
        i = i + 1;
    }
    0
}

/// Reports every output, in order, one of them as primary.
pub fn screens(entries: &[OutputEntry]) -> (r: Result<Vec<Screen>, ScreensError>)
    ensures
        if entries@.len() == 0 {
            r is Err && r->Err_0 is NoOutputs
        } else {
            r is Ok && {
                let list = r->Ok_0@;
                &&& list.len() == entries@.len()
                &&& forall|i: int|
                    0 <= i < list.len() ==> geometry_of(entries@[i]).shown_as(
                        &#[trigger] list[i],
                        i == primary_index(entries@),
                    )
            }
        },
{
    let n: usize = entries.len();
    if n == 0 {
        return Err(ScreensError::NoOutputs);
    }
    let primary: usize = find_primary(entries);
    let mut list: Vec<Screen> = Vec::new();
    let mut i: usize = 0;
    while i < n
        invariant
            n == entries@.len(),
            i <= n,
            primary == primary_index(entries@),
            list@.len() == i,
            forall|j: int|
                0 <= j < i ==> geometry_of(entries@[j]).shown_as(
                    &#[trigger] list@[j],
                    j == primary_index(entries@),
                ),
        decreases n - i,
    {
        let geom = OutputGeometry::from_entry(&entries[i]);
        list.push(to_screen(&geom, i == primary));
        i = i + 1;
    }
    Ok(list)
}

/// An output that is reported under the given name.
pub open spec fn is_shown_under(e: OutputEntry, name: Seq<char>) -> bool {
    geometry_of(e).display_name() == name
}

/// Outputs that have the given name.
pub open spec fn named(name: Seq<char>) -> spec_fn(OutputEntry) -> bool {
    |e: OutputEntry| e.name is Some && is_shown_under(e, name)
}

/// Outputs without a name that are reported under the given one.
pub open spec fn unnamed(name: Seq<char>) -> spec_fn(OutputEntry) -> bool {
    |e: OutputEntry| e.name is None && is_shown_under(e, name)
}

/// The output that a selector selects: the first that has the name, else the first without
/// a name that is reported under it.
pub open spec fn selected(entries: Seq<OutputEntry>, name: Seq<char>) -> Option<int> {
    match search::find(entries, named(name)) {
        Some(i) => Some(i),
        None => search::find(entries, unnamed(name)),
    }
}

/// The first output that is reported under a name, among those that have a name or among
/// those that have none.
fn find_shown(entries: &[OutputEntry], wanted: &str, has_name: bool) -> (r: Option<usize>)
    ensures
        match search::find(
            entries@,
            if has_name {
                named(wanted@)
            } else {
                unnamed(wanted@)
            },
        ) {
            Some(i) => r is Some && r->0 == i && i < entries@.len(),
            None => r is None,
        },
{
    let ghost p = if has_name {
        named(wanted@)
    } else {
        unnamed(wanted@)
    };
    let n: usize = entries.len();
    let mut i: usize = 0;
    while i < n
        invariant
            n == entries@.len(),
            p == (if has_name {
                named(wanted@)
            } else {
                unnamed(wanted@)
            }),
            i <= n,
            search::find(entries@, p) == search::find_from(entries@, p, i as int),
        decreases n - i,
    {
        if entries[i].name.is_some() == has_name {
            let shown: String = shown_name(&entries[i].name, entries[i].registry_name);
            if text::same_text(shown.as_str(), wanted) {
                return Some(i);
            }
        }
        i = i + 1;
    }
    None
}

/// Resolves a display selector to an output.
///
/// With a selector: the first output of that name, else the first unnamed output that is
/// reported under it, else an error. Without: the primary output.
pub fn resolve_output(entries: &[OutputEntry], selector: Option<&str>) -> (r: Result<
    OutputEntry,
    ScreensError,
>)
    ensures
        if entries@.len() == 0 {
            r is Err && r->Err_0 is NoOutputs
        } else {
            match selector {
                Some(name) => match selected(entries@, name@) {
                    Some(i) => r == Ok::<OutputEntry, ScreensError>(entries@[i]),
                    None => r is Err && r->Err_0 is DisplayNotFound && r->Err_0->DisplayNotFound_0@
                        == name@,
                },
                None => r == Ok::<OutputEntry, ScreensError>(entries@[primary_index(entries@)]),
            }
        },
{
    if entries.len() == 0 {
        return Err(ScreensError::NoOutputs);
    }
    match selector {
        Some(wanted) => match find_shown(entries, wanted, true) {
            Some(i) => Ok(entries[i].clone()),
            None => match find_shown(entries, wanted, false) {
                Some(i) => Ok(entries[i].clone()),
                None => Err(ScreensError::DisplayNotFound(wanted.to_owned())),
            },
        },
        None => Ok(entries[find_primary(entries)].clone()),
    }
}

/// Exactly one reported screen is primary and active, and it reports the output that
/// is captured when no display is named.
pub proof fn law_one_primary(entries: Seq<OutputEntry>, list: Seq<Screen>)
    requires
        entries.len() > 0,
        list.len() == entries.len(),
        forall|i: int|
            0 <= i < list.len() ==> geometry_of(entries[i]).shown_as(
                &#[trigger] list[i],
                i == primary_index(entries),
            ),
    ensures
        0 <= primary_index(entries) < list.len(),
        forall|i: int|
            0 <= i < list.len() ==> (#[trigger] list[i].is_primary <==> i == primary_index(
                entries,
            )) && list[i].is_active == list[i].is_primary,
{
    search::lemma_find(entries, |e: OutputEntry| at_origin(e));
}

/// An output at the logical origin makes the primary one sit there.
pub proof fn law_primary_is_at_origin(entries: Seq<OutputEntry>, i: int)
    requires
        0 <= i < entries.len(),
        at_origin(entries[i]),
    ensures
        at_origin(entries[primary_index(entries)]),
        primary_index(entries) <= i,
{
    search::lemma_find(entries, |e: OutputEntry| at_origin(e));
}

/// The id that an output is reported under is what selects it: an output of that id is
/// found, and where no other output has the same id it is that very output.
pub proof fn law_reported_id_selects(entries: Seq<OutputEntry>, i: int)
    requires
        0 <= i < entries.len(),
    ensures
        ({
            let id = geometry_of(entries[i]).display_name();
            let found = selected(entries, id);
            &&& found is Some
            &&& 0 <= found->0 < entries.len()
            &&& is_shown_under(entries[found->0], id)
            &&& (forall|j: int|
                0 <= j < entries.len() && j != i ==> !is_shown_under(#[trigger] entries[j], id))
                ==> found == Some(i)
        }),
{
    let id = geometry_of(entries[i]).display_name();
    search::lemma_find(entries, named(id));
    search::lemma_find(entries, unnamed(id));
    assert(named(id)(entries[i]) || unnamed(id)(entries[i]));
}

/// A name selects an output that has it before any that is only reported under it.
pub proof fn law_names_come_first(entries: Seq<OutputEntry>, i: int)
    requires
        0 <= i < entries.len(),
        entries[i].name is Some,
    ensures
        ({
            let name = entries[i].name->0@;
            let found = selected(entries, name);
            &&& found is Some
            &&& 0 <= found->0 <= i
            &&& entries[found->0].name is Some
            &&& entries[found->0].name->0@ == name
        }),
{
    let name = entries[i].name->0@;
    search::lemma_find(entries, named(name));
    assert(named(name)(entries[i]));
}

/// Events of one output leave every other output as it was.
pub proof fn law_output_events_stay_apart(
    entries: Seq<OutputEntry>,
    proxy: u32,
    event: OutputEvent,
    i: int,
)
    requires
        0 <= i < entries.len(),
        entries[i].wl_output != proxy,
    ensures
        match output_index(entries, proxy) {
            Some(k) => entries.update(k, after_output_event(entries[k], event))[i] == entries[i],
            None => true,
        },
{
    search::lemma_find(entries, |e: OutputEntry| e.wl_output == proxy);
}

/// The screens report the outputs, one for one.
pub open spec fn reports(list: Seq<Screen>, entries: Seq<OutputEntry>) -> bool {
    &&& list.len() == entries.len()
    &&& forall|i: int|
        0 <= i < list.len() ==> geometry_of(entries[i]).shown_as(
            &#[trigger] list[i],
            i == primary_index(entries),
        )
}

/// From the event to the report: after an output has said where it lies, its screen is
/// reported there, across by `x` and down by `y`, and nothing else of any screen changes but
/// which one is primary.
pub proof fn law_positions_are_reported(
    before: Seq<OutputEntry>,
    after: Seq<OutputEntry>,
    was: Seq<Screen>,
    list: Seq<Screen>,
    index: int,
    x: i32,
    y: i32,
    i: int,
)
    requires
        0 <= index < before.len(),
        after == before.update(
            index,
            after_xdg_event(before[index], XdgOutputEvent::LogicalPosition { x, y }),
        ),
        reports(was, before),
        reports(list, after),
        0 <= i < before.len(),
    ensures
        list[index].geometry.x == x,
        list[index].geometry.y == y,
        i != index ==> list[i].geometry == was[i].geometry,
        list[i].geometry.width == was[i].geometry.width,
        list[i].geometry.height == was[i].geometry.height,
        list[i].id@ == was[i].id@,
        list[i].name@ == was[i].name@,
        list[i].scale == was[i].scale,
        list[i].refresh_millihz == was[i].refresh_millihz,
{
    assert(geometry_of(after[i]).shown_as(&list[i], i == primary_index(after)));
    assert(geometry_of(before[i]).shown_as(&was[i], i == primary_index(before)));
    assert(geometry_of(after[index]).shown_as(&list[index], index == primary_index(after)));
}

/// From the event to the report: after an output has said how large it is, its screen is
/// reported that wide and that high, and nothing else of any screen changes but its scale.
pub proof fn law_sizes_are_reported(
    before: Seq<OutputEntry>,
    after: Seq<OutputEntry>,
    was: Seq<Screen>,
    list: Seq<Screen>,
    index: int,
    width: i32,
    height: i32,
    i: int,
)
    requires
        0 <= index < before.len(),
        after == before.update(
            index,
            after_xdg_event(before[index], XdgOutputEvent::LogicalSize { width, height }),
        ),
        reports(was, before),
        reports(list, after),
        0 <= i < before.len(),
    ensures
        list[index].geometry.width == width,
        list[index].geometry.height == height,
        before[index].mode_width is Some && width > 0 ==> list[index].scale == Some(
            ScaleRatio { physical: before[index].mode_width->0, logical: width },
        ),
        i != index ==> list[i].geometry == was[i].geometry && list[i].scale == was[i].scale,
        list[i].geometry.x == was[i].geometry.x,
        list[i].geometry.y == was[i].geometry.y,
        list[i].id@ == was[i].id@,
        list[i].name@ == was[i].name@,
        list[i].refresh_millihz == was[i].refresh_millihz,
        list[i].is_primary == was[i].is_primary,
{
    lemma_same_primary(before, after);
    assert(geometry_of(after[i]).shown_as(&list[i], i == primary_index(after)));
    assert(geometry_of(before[i]).shown_as(&was[i], i == primary_index(before)));
    assert(geometry_of(after[index]).shown_as(&list[index], index == primary_index(after)));
}

/// Which output is primary depends on nothing but where the outputs lie.
proof fn lemma_same_primary(a: Seq<OutputEntry>, b: Seq<OutputEntry>)
    requires
        a.len() == b.len(),
        forall|i: int|
            0 <= i < a.len() ==> (#[trigger] a[i]).logical_x == b[i].logical_x && a[i].logical_y
                == b[i].logical_y,
    ensures
        primary_index(a) == primary_index(b),
{
    let p = |e: OutputEntry| at_origin(e);
    search::lemma_find(a, p);
    search::lemma_find(b, p);
    if let Some(i) = search::find(a, p) {
        assert(p(a[i]) && p(b[i]));
    }
    if let Some(j) = search::find(b, p) {
        assert(a[j].logical_x == b[j].logical_x);
        assert(p(b[j]) && p(a[j]));
    }
}

/// From the event to the report: the current mode of an output is what its refresh rate is
/// reported from, its size as long as it has not said a logical one, and the physical side of
/// its scale where it has. A mode that is not current, or has flags that are not known, is
/// passed over.
pub proof fn law_modes_are_reported(
    e: OutputEntry,
    flags: Option<u32>,
    width: i32,
    height: i32,
    refresh: i32,
    s: Screen,
    primary: bool,
)
    requires
        geometry_of(
            after_output_event(e, OutputEvent::Mode { flags, width, height, refresh }),
        ).shown_as(&s, primary),
    ensures
        flags is Some && flags->0 & 1 == 1 ==> {
            let by = if e.scale < 1 {
                1
            } else {
                e.scale as int
            };
            &&& s.refresh_millihz is Some
            &&& refresh >= 0 ==> s.refresh_millihz->0 == refresh
            &&& refresh < 0 ==> s.refresh_millihz->0 == 0
            &&& e.logical_width is None || e.logical_height is None ==> {
                &&& width >= 0 ==> s.geometry.width == width as int / by
                &&& height >= 0 ==> s.geometry.height == height as int / by
            }
            &&& e.logical_width is Some && e.logical_width->0 > 0 ==> s.scale == Some(
                ScaleRatio { physical: width, logical: e.logical_width->0 },
            )
        },
        flags is None || flags->0 & 1 == 0 ==> geometry_of(e).shown_as(&s, primary),
        e.logical_width is Some && e.logical_height is Some ==> s.geometry.width
            == e.logical_width->0 && s.geometry.height == e.logical_height->0,
        e.logical_x is Some ==> s.geometry.x == e.logical_x->0,
        e.logical_y is Some ==> s.geometry.y == e.logical_y->0,
{
    if let Some(bits) = flags {
        assert(bits & 1 == bits % 2) by (bit_vector);
    }
    let by = if e.scale < 1 {
        1
    } else {
        e.scale as int
    };
    if width >= 0 {
        lemma_quotient_shrinks(width as int, by);
    }
    if height >= 0 {
        lemma_quotient_shrinks(height as int, by);
    }
}

/// From the event to the report: an output is reported under the name it last said itself;
/// the name that xdg-output says counts only until the output has one; and an output without
/// any name is `output-` and the decimal number of its global.
pub proof fn law_names_are_reported(e: OutputEntry, name: String, s: Screen, primary: bool)
    ensures
        geometry_of(after_output_event(e, OutputEvent::Name { name })).shown_as(&s, primary)
            ==> s.id@ == name@ && s.name@ == name@,
        geometry_of(after_xdg_event(e, XdgOutputEvent::Name { name })).shown_as(&s, primary)
            ==> s.id@ == s.name@ && s.name@ == (match e.name {
            Some(first) => first@,
            None => name@,
        }),
        geometry_of(e).shown_as(&s, primary) && e.name is None ==> {
            &&& s.id@ == "output-"@ + text::decimal(e.registry_name as nat)
            &&& s.name@ == s.id@
        },
{
}

/// The scale that is reported: physical over logical width where both are known and the
/// logical one is positive, else the scale that the output said, at least one.
pub proof fn law_scales_are_reported(e: OutputEntry, factor: i32, s: Screen, primary: bool)
    requires
        geometry_of(after_output_event(e, OutputEvent::Scale { factor })).shown_as(&s, primary),
    ensures
        s.scale is Some,
        e.mode_width is Some && e.logical_width is Some && e.logical_width->0 > 0
            ==> s.scale->0.physical == e.mode_width->0 && s.scale->0.logical == e.logical_width->0,
        e.mode_width is None || e.logical_width is None || e.logical_width->0 <= 0
            ==> s.scale->0.logical == 1 && s.scale->0.physical == (if factor < 1 {
            1
        } else {
            factor as int
        }),
{
}

/// Which screen is primary: the first whose output lies at (0, 0), across and down, and where
/// there is none the first of all. The primary screen is the active one.
pub proof fn law_what_is_primary(entries: Seq<OutputEntry>, list: Seq<Screen>, i: int)
    requires
        reports(list, entries),
        0 <= i < entries.len(),
    ensures
        list[i].is_active == list[i].is_primary,
        list[i].is_primary <==> {
            ||| entries[i].logical_x == Some(0i32) && entries[i].logical_y == Some(0i32)
                && forall|j: int|
                0 <= j < i ==> !((#[trigger] entries[j]).logical_x == Some(0i32)
                    && entries[j].logical_y == Some(0i32))
            ||| i == 0 && forall|j: int|
                0 <= j < entries.len() ==> !((#[trigger] entries[j]).logical_x == Some(0i32)
                    && entries[j].logical_y == Some(0i32))
        },
{
    let p = |e: OutputEntry| at_origin(e);
    search::lemma_find(entries, p);
    assert(geometry_of(entries[i]).shown_as(&list[i], i == primary_index(entries)));
    assert(p(entries[i]) == (entries[i].logical_x == Some(0i32) && entries[i].logical_y == Some(
        0i32,
    )));
    assert forall|j: int| 0 <= j < entries.len() implies p(entries[j]) == ((
    #[trigger] entries[j]).logical_x == Some(0i32) && entries[j].logical_y == Some(0i32)) by {}
}

/// What a selector selects: an output is found by the name it has, and by no other; one
/// without a name is found by the id it is reported under; and where nothing is found no
/// output has the name or the id.
pub proof fn law_what_a_selector_selects(entries: Seq<OutputEntry>, name: Seq<char>, j: int)
    requires
        0 <= j < entries.len(),
    ensures
        selected(entries, name) matches Some(i) ==> {
            &&& 0 <= i < entries.len()
            &&& match entries[i].name {
                Some(n) => n@ == name,
                None => "output-"@ + text::decimal(entries[i].registry_name as nat) == name,
            }
        },
        selected(entries, name) is None ==> match entries[j].name {
            Some(n) => n@ != name,
            None => "output-"@ + text::decimal(entries[j].registry_name as nat) != name,
        },
{
    search::lemma_find(entries, named(name));
    search::lemma_find(entries, unnamed(name));
    assert(named(name)(entries[j]) || unnamed(name)(entries[j]) <==> is_shown_under(
        entries[j],
        name,
    ));
}

/// Events of `wl_output` objects reach the output that the object belongs to: the first whose
/// object id is the event's.
pub proof fn law_output_events_reach_their_output(entries: Seq<OutputEntry>, proxy: u32, i: int)
    requires
        0 <= i < entries.len(),
        entries[i].wl_output == proxy,
        forall|j: int| 0 <= j < i ==> (#[trigger] entries[j]).wl_output != proxy,
    ensures
        output_index(entries, proxy) == Some(i),
{
    search::lemma_find(entries, |e: OutputEntry| e.wl_output == proxy);
}

/// What is known of an output at first: the object it is bound to and the number of its
/// global. It counts as not scaled until it says otherwise.
pub proof fn law_outputs_start_unknown(e: OutputEntry, wl_output: u32, registry_name: u32)
    requires
        fresh_entry(e, wl_output, registry_name),
    ensures
        e.wl_output == wl_output,
        e.registry_name == registry_name,
        e.scale == 1,
        e.name is None,
        e.logical_x is None && e.logical_y is None,
        e.logical_width is None && e.logical_height is None,
        e.mode_width is None && e.mode_height is None,
        e.refresh_millihz is None,
{
}

/// A mode is divided by the scale as whole numbers are: what is left over is less than the
/// scale, and has the sign of the number.
pub proof fn law_divisions_cut_toward_zero(n: int, d: int)
    requires
        1 <= d,
    ensures
        n >= 0 ==> 0 <= n - quotient_toward_zero(n, d) * d < d,
        n <= 0 ==> -d < n - quotient_toward_zero(n, d) * d <= 0,
{
    let m = if n >= 0 {
        n
    } else {
        -n
    };
    vstd::arithmetic::div_mod::lemma_fundamental_div_mod(m, d);
    vstd::arithmetic::div_mod::lemma_mod_bound(m, d);
    let q = m / d;
    assert(d * q == q * d && (-q) * d == -(q * d)) by (nonlinear_arith);
}

} // verus!
