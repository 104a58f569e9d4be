//! Browsing session state: per-tab navigation history and the set of open
//! tabs. Fetching pages is left to the caller, which hands the fetched text
//! back through `BrowserState::record_load`.
use vstd::prelude::*;
use crate::text::chars_of;

verus! {

pub struct HistoryModel {
    pub back: Seq<Seq<char>>,
    pub forward: Seq<Seq<char>>,
    pub current: Seq<char>,
}

/// Back and forward stacks around the current address (empty before the
/// first visit). The top of each stack is its last element.
pub struct NavigationHistory {
    pub back_stack: Vec<String>,
    pub forward_stack: Vec<String>,
    pub current: String,
}

pub open spec fn strs(v: Seq<String>) -> Seq<Seq<char>> {
    v.map_values(|s: String| s@)
}

impl View for NavigationHistory {
    type V = HistoryModel;

    open spec fn view(&self) -> HistoryModel {
        HistoryModel { back: strs(self.back_stack@), forward: strs(self.forward_stack@), current: self.current@ }
    }
}

impl NavigationHistory {
    pub fn new() -> (r: NavigationHistory)
        ensures
            r@ == (HistoryModel { back: Seq::empty(), forward: Seq::empty(), current: Seq::empty() }),
    {
        let r = NavigationHistory { back_stack: Vec::new(), forward_stack: Vec::new(), current: String::new() };
        proof {
            assert(r@.back =~= Seq::<Seq<char>>::empty());
            assert(r@.forward =~= Seq::<Seq<char>>::empty());
        }
        r
    }

    /// A visit to `url`: the current address, if any, goes on the back stack
    /// and the forward stack is cleared.
    pub fn push(&mut self, url: String)
        ensures
            final(self)@ == (HistoryModel {
                back: if old(self)@.current.len() > 0 {
                    old(self)@.back.push(old(self)@.current)
                } else {
                    old(self)@.back
                },
                forward: Seq::empty(),
                current: url@,
            }),
    {
        let ghost old_back = self@.back;
        if self.current.as_str().unicode_len() > 0 {
            self.back_stack.push(self.current.clone());
            proof { assert(self@.back =~= old_back.push(old(self)@.current)); }
        }
        self.current = url;
        self.forward_stack = Vec::new();
        proof { assert(self@.forward =~= Seq::<Seq<char>>::empty()); }
    }

    pub fn can_go_back(&self) -> (r: bool)
        ensures
            r == (self@.back.len() > 0),
    {
        self.back_stack.len() > 0
    }

    pub fn can_go_forward(&self) -> (r: bool)
        ensures
            r == (self@.forward.len() > 0),
    {
        self.forward_stack.len() > 0
    }

    /// Steps back: the top of the back stack becomes current and the old
    /// current address goes on the forward stack. `None` when there is no
    /// earlier address.
    pub fn go_back(&mut self) -> (r: Option<String>)
        ensures
            old(self)@.back.len() == 0 ==> r is None && final(self)@ == old(self)@,
            old(self)@.back.len() > 0 ==> r is Some && r->0@ == old(self)@.back.last() && final(self)@ == (
            HistoryModel {
                back: old(self)@.back.drop_last(),
                forward: old(self)@.forward.push(old(self)@.current),
                current: old(self)@.back.last(),
            }),
    {
        match self.back_stack.pop() {
            None => None,
            Some(previous) => {
                let ghost f = self@.forward;
                let cur = self.current.clone();
                self.current = previous.clone();
                self.forward_stack.push(cur);
                proof {
                    assert(self@.back =~= old(self)@.back.drop_last());
                    assert(self@.forward =~= f.push(old(self)@.current));
                }
                Some(previous)
            },
        }
    }

    /// Steps forward: the mirror image of `go_back`.
    pub fn go_forward(&mut self) -> (r: Option<String>)
        ensures
            old(self)@.forward.len() == 0 ==> r is None && final(self)@ == old(self)@,
            old(self)@.forward.len() > 0 ==> r is Some && r->0@ == old(self)@.forward.last() && final(self)@
                == (HistoryModel {
                back: old(self)@.back.push(old(self)@.current),
                forward: old(self)@.forward.drop_last(),
                current: old(self)@.forward.last(),
            }),
    {
        match self.forward_stack.pop() {
            None => None,
            Some(next) => {
                let ghost b = self@.back;
                let cur = self.current.clone();
                self.current = next.clone();
                self.back_stack.push(cur);
                proof {
                    assert(self@.forward =~= old(self)@.forward.drop_last());
                    assert(self@.back =~= b.push(old(self)@.current));
                }
                Some(next)
            },
        }
    }
}

/// `s` begins with `p`.
pub open spec fn starts_with(s: Seq<char>, p: Seq<char>) -> bool {
    p.len() <= s.len() && s.subrange(0, p.len() as int) == p
}

/// An address with a scheme: one without `http://` or `https://` gets
/// `https://` in front.
pub open spec fn normalized(s: Seq<char>) -> Seq<char> {
    if starts_with(s, "http://"@) || starts_with(s, "https://"@) {
        s
    } else {
        "https://"@ + s
    }
}

fn starts_with_exec(s: &Vec<char>, p: &str) -> (r: bool)
    ensures
        r == starts_with(s@, p@),
{
    let pc = chars_of(p);
    if pc.len() > s.len() {
        false
    } else {
        crate::style::equal_at(s, 0, &pc)
    }
}

pub fn normalize_url(input: &str) -> (r: String)
    ensures
        r@ == normalized(input@),
{
    let cs = chars_of(input);
    if !starts_with_exec(&cs, "http://") && !starts_with_exec(&cs, "https://") {
        let mut out = String::from_str("https://");
        out.append(input);
        out
    } else {
        String::from_str(input)
    }
}

pub struct TabModel {
    pub url: Seq<char>,
    pub content: Seq<char>,
    pub title: Seq<char>,
    pub id: usize,
    pub history: HistoryModel,
}

pub struct Tab {
    pub url: String,
    pub content: String,
    pub title: String,
    pub id: usize,
    pub history: NavigationHistory,
}

impl View for Tab {
    type V = TabModel;

    open spec fn view(&self) -> TabModel {
        TabModel { url: self.url@, content: self.content@, title: self.title@, id: self.id, history: self.history@ }
    }
}

pub open spec fn fresh_tab(id: usize) -> TabModel {
    TabModel {
        url: Seq::empty(),
        content: Seq::empty(),
        title: "New Tab"@,
        id,
        history: HistoryModel { back: Seq::empty(), forward: Seq::empty(), current: Seq::empty() },
    }
}

impl Tab {
    pub fn new(id: usize) -> (r: Tab)
        ensures
            r@ == fresh_tab(id),
    {
        Tab {
            url: String::new(),
            content: String::new(),
            title: String::from_str("New Tab"),
            id,
            history: NavigationHistory::new(),
        }
    }
}

pub open spec fn tabs_view(v: Seq<Tab>) -> Seq<TabModel> {
    v.map_values(|t: Tab| t@)
}

pub open spec fn back_history(h: HistoryModel) -> HistoryModel {
    HistoryModel { back: h.back.drop_last(), forward: h.forward.push(h.current), current: h.back.last() }
}

pub open spec fn forward_history(h: HistoryModel) -> HistoryModel {
    HistoryModel { back: h.back.push(h.current), forward: h.forward.drop_last(), current: h.forward.last() }
}

pub open spec fn visited(h: HistoryModel, url: Seq<char>) -> HistoryModel {
    HistoryModel {
        back: if h.current.len() > 0 { h.back.push(h.current) } else { h.back },
        forward: Seq::empty(),
        current: url,
    }
}

/// The open tabs, the selected one, and the text of the address bar.
pub struct BrowserState {
    pub tabs: Vec<Tab>,
    pub current_tab: usize,
    pub url_bar: String,
    pub next_tab_id: usize,
}

impl BrowserState {
    /// At least one tab is open and one of them is selected.
    pub open spec fn wf(&self) -> bool {
        self.tabs@.len() >= 1 && self.current_tab < self.tabs@.len()
    }

    pub fn new() -> (r: BrowserState)
        ensures
            r.wf(),
            tabs_view(r.tabs@) == seq![fresh_tab(0)],
            r.current_tab == 0,
            r.url_bar@ == Seq::<char>::empty(),
            r.next_tab_id == 1,
    {
        let mut tabs: Vec<Tab> = Vec::new();
        tabs.push(Tab::new(0));
        proof { assert(tabs_view(tabs@) =~= seq![fresh_tab(0)]); }
        BrowserState { tabs, current_tab: 0, url_bar: String::new(), next_tab_id: 1 }
    }

    /// Opens a fresh tab with the next id and selects it.
    pub fn new_tab(&mut self)
        requires
            old(self).next_tab_id < usize::MAX,
        ensures
            final(self).wf(),
            tabs_view(final(self).tabs@) == tabs_view(old(self).tabs@).push(fresh_tab(old(self).next_tab_id)),
            final(self).next_tab_id == old(self).next_tab_id + 1,
            final(self).current_tab == old(self).tabs@.len(),
            final(self).url_bar == old(self).url_bar,
    {
        let tab = Tab::new(self.next_tab_id);
        self.next_tab_id += 1;
        self.tabs.push(tab);
        self.current_tab = self.tabs.len() - 1;
        proof {
            assert(tabs_view(self.tabs@) =~= tabs_view(old(self).tabs@).push(fresh_tab(old(self).next_tab_id)));
        }
    }

    /// Closes the tab at `index` unless it is the last one open; the
    /// selection moves to the last tab when it fell off the end.
    pub fn close_tab(&mut self, index: usize)
        requires
            old(self).wf(),
            index < old(self).tabs@.len(),
        ensures
            final(self).wf(),
            old(self).tabs@.len() == 1 ==> *final(self) == *old(self),
            old(self).tabs@.len() > 1 ==> tabs_view(final(self).tabs@) == tabs_view(old(self).tabs@).remove(index as int)
                && final(self).current_tab == if old(self).current_tab >= old(self).tabs@.len() - 1 {
                (old(self).tabs@.len() - 2) as usize
            } else {
                old(self).current_tab
            },
            final(self).url_bar == old(self).url_bar,
            final(self).next_tab_id == old(self).next_tab_id,
    {
        if self.tabs.len() > 1 {
            self.tabs.remove(index);
            if self.current_tab >= self.tabs.len() {
                self.current_tab = self.tabs.len() - 1;
            }
            proof {
                assert(tabs_view(self.tabs@) =~= tabs_view(old(self).tabs@).remove(index as int));
            }
        }
    }

    /// Steps the selected tab back in its history and puts the address in
    /// the address bar; `None` when there is no earlier address.
    pub fn navigate_back(&mut self) -> (r: Option<String>)
        requires
            old(self).wf(),
        ensures
            final(self).wf(),
            ({
                let c = old(self).current_tab as int;
                let t = tabs_view(old(self).tabs@)[c];
                if t.history.back.len() == 0 {
                    r is None && *final(self) == *old(self)
                } else {
                    r is Some && r->0@ == t.history.back.last() && final(self).url_bar@ == r->0@
                        && tabs_view(final(self).tabs@) == tabs_view(old(self).tabs@).update(
                        c,
                        TabModel { history: back_history(t.history), ..t },
                    ) && final(self).current_tab == old(self).current_tab && final(self).next_tab_id
                        == old(self).next_tab_id
                }
            }),
    {
        if !self.tabs[self.current_tab].history.can_go_back() {
            return None;
        }
        let ghost tv = tabs_view(self.tabs@);
        let mut tab = self.tabs.remove(self.current_tab);
        let r = tab.history.go_back();
        self.tabs.insert(self.current_tab, tab);
        match &r {
            Some(u) => {
                self.url_bar = u.clone();
            },
            None => {},
        }
        proof {
            let c = self.current_tab as int;
            assert(tabs_view(self.tabs@) =~= tv.update(c, TabModel { history: back_history(tv[c].history), ..tv[c] }));
        }
        r
    }

    /// Steps the selected tab forward in its history; the mirror image of
    /// `navigate_back`.
    pub fn navigate_forward(&mut self) -> (r: Option<String>)
        requires
            old(self).wf(),
        ensures
            final(self).wf(),
            ({
                let c = old(self).current_tab as int;
                let t = tabs_view(old(self).tabs@)[c];
                if t.history.forward.len() == 0 {
                    r is None && *final(self) == *old(self)
                } else {
                    r is Some && r->0@ == t.history.forward.last() && final(self).url_bar@ == r->0@
                        && tabs_view(final(self).tabs@) == tabs_view(old(self).tabs@).update(
                        c,
                        TabModel { history: forward_history(t.history), ..t },
                    ) && final(self).current_tab == old(self).current_tab && final(self).next_tab_id
                        == old(self).next_tab_id
                }
            }),
    {
        if !self.tabs[self.current_tab].history.can_go_forward() {
            return None;
        }
        let ghost tv = tabs_view(self.tabs@);
        let mut tab = self.tabs.remove(self.current_tab);
        let r = tab.history.go_forward();
        self.tabs.insert(self.current_tab, tab);
        match &r {
            Some(u) => {
                self.url_bar = u.clone();
            },
            None => {},
        }
        proof {
            let c = self.current_tab as int;
            assert(tabs_view(self.tabs@) =~= tv.update(c, TabModel { history: forward_history(tv[c].history), ..tv[c] }));
        }
        r
    }

    /// Records a page fetched for `url` in the selected tab: the visit goes
    /// into its history, and the page's text and title (or `Untitled`) are
    /// kept.
    pub fn record_load(&mut self, url: &str, content: String)
        requires
            old(self).wf(),
        ensures
            final(self).wf(),
            ({
                let c = old(self).current_tab as int;
                let t = tabs_view(old(self).tabs@)[c];
                tabs_view(final(self).tabs@) == tabs_view(old(self).tabs@).update(
                    c,
                    TabModel {
                        url: url@,
                        content: content@,
                        title: match crate::title::title_of(content@) {
                            Some(x) => x,
                            None => "Untitled"@,
                        },
                        history: visited(t.history, url@),
                        ..t
                    },
                )
            }),
            final(self).current_tab == old(self).current_tab,
            final(self).url_bar == old(self).url_bar,
            final(self).next_tab_id == old(self).next_tab_id,
    {
        let ghost tv = tabs_view(self.tabs@);
        let mut tab = self.tabs.remove(self.current_tab);
        tab.history.push(String::from_str(url));
        tab.url = String::from_str(url);
        tab.title = match crate::title::extract_title(content.as_str()) {
            Some(x) => x,
            None => String::from_str("Untitled"),
        };
        tab.content = content;
        self.tabs.insert(self.current_tab, tab);
        proof {
            let c = self.current_tab as int;
            let t = tv[c];
            assert(tabs_view(self.tabs@) =~= tv.update(
                c,
                TabModel {
                    url: url@,
                    content: content@,
                    title: match crate::title::title_of(content@) {
                        Some(x) => x,
                        None => "Untitled"@,
                    },
                    history: visited(t.history, url@),
                    ..t
                },
            ));
        }
    }
}

} // verus!
