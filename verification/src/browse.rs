//! The interactive navigator's decisions: which directory is listed, which
//! row is highlighted, and what each key does. Drawing and the actual removal
//! from disk are left to the caller, who reports back.
use vstd::prelude::*;
use vstd::string::StringExecFns;
use crate::model::{ind, lemma_cnt_child, lemma_cnt_nonneg, lemma_detach, lemma_listed, lemma_reach_above};
use crate::tree::{
    by_size, kids_of, lemma_recomputed_shape, lemma_same_shape, parents_of, reaches,
    recomputed, totals_fit, Tree,
};

verus! {

/// A key press, as far as the navigator cares.
#[derive(Clone, Copy, PartialEq, Eq, Structural, Debug)]
pub enum Key {
    Char(char),
    Enter,
    Esc,
    Up,
    Down,
    Left,
    Right,
    Home,
    End,
    Backspace,
    Other,
}

/// Work the caller has to carry out after a key press.
#[derive(Clone, Copy, PartialEq, Eq, Structural, Debug)]
pub enum Action {
    Nothing,
    /// Remove this node's path from disk, then report with [`App::deleted`].
    Delete(usize),
}

/// An explicit "yes" in a confirmation.
pub open spec fn is_yes(key: Key) -> bool {
    key == Key::Char('y') || key == Key::Char('Y') || key == Key::Enter
}

/// The row after moving down in a list of `len` rows (the list keeps the
/// cursor on its last row).
pub open spec fn next_row(sel: Option<usize>, len: nat) -> Option<usize> {
    if len == 0 {
        None
    } else {
        match sel {
            Some(i) => Some(if i + 1 < len { (i + 1) as usize } else { (len - 1) as usize }),
            None => Some(0),
        }
    }
}

/// The row after moving up.
pub open spec fn prev_row(sel: Option<usize>, len: nat) -> Option<usize> {
    if len == 0 {
        None
    } else {
        match sel {
            Some(i) => Some(if i > 0 { (i - 1) as usize } else { 0 }),
            None => Some((len - 1) as usize),
        }
    }
}

pub open spec fn first_row(len: nat) -> Option<usize> {
    if len == 0 {
        None
    } else {
        Some(0)
    }
}

pub open spec fn last_row(len: nat) -> Option<usize> {
    if len == 0 {
        None
    } else {
        Some((len - 1) as usize)
    }
}

/// The cursor placed on `keep` when it is listed, on the first row
/// otherwise, and nowhere in an empty list.
pub open spec fn placed(cs: Seq<usize>, sel: Option<usize>, keep: Option<usize>) -> bool {
    if cs.len() == 0 {
        sel is None
    } else {
        &&& sel is Some
        &&& sel.unwrap() < cs.len()
        &&& (keep is Some && cs.contains(keep.unwrap())) ==> cs[sel.unwrap() as int] == keep.unwrap()
        &&& !(keep is Some && cs.contains(keep.unwrap())) ==> sel.unwrap() == 0
    }
}

/// Interactive navigator over a built [`Tree`]: the directory being listed,
/// its children largest first, the highlighted row, and the two
/// confirmation prompts.
pub struct App {
    tree: Tree,
    /// Index of the directory currently being listed.
    current: usize,
    /// `current`'s children, largest first.
    children: Vec<usize>,
    /// The highlighted row.
    selected: Option<usize>,
    /// A "really quit?" prompt is up and captures all input.
    confirm_quit: bool,
    /// A "delete this?" prompt is up and captures all input.
    confirm_delete: bool,
    /// Last delete error, shown in the footer.
    error: Option<String>,
    quit: bool,
}

impl App {
    pub closed spec fn spec_tree(&self) -> Tree {
        self.tree
    }

    pub closed spec fn spec_current(&self) -> usize {
        self.current
    }

    pub closed spec fn spec_children(&self) -> Seq<usize> {
        self.children@
    }

    pub closed spec fn spec_selected(&self) -> Option<usize> {
        self.selected
    }

    pub closed spec fn spec_confirm_quit(&self) -> bool {
        self.confirm_quit
    }

    pub closed spec fn spec_confirm_delete(&self) -> bool {
        self.confirm_delete
    }

    pub closed spec fn spec_error(&self) -> Option<Seq<char>> {
        match self.error {
            Some(e) => Some(e@),
            None => None,
        }
    }

    pub closed spec fn spec_quit(&self) -> bool {
        self.quit
    }

    /// The child under the cursor.
    pub open spec fn spec_selected_child(&self) -> Option<usize> {
        match self.spec_selected() {
            Some(r) => Some(self.spec_children()[r as int]),
            None => None,
        }
    }

    /// `current` is listed: its children largest first, the cursor placed
    /// on `keep`.
    pub open spec fn lists(&self, current: usize, keep: Option<usize>) -> bool {
        &&& self.spec_current() == current
        &&& current < self.spec_tree()@.len()
        &&& by_size(self.spec_tree()@, self.spec_tree()@[current as int].children@, self.spec_children())
        &&& placed(self.spec_children(), self.spec_selected(), keep)
    }

    /// The tree is well formed with right totals that fit; the listed
    /// directory is reachable from the root and listed largest first; the
    /// cursor is on a row exactly when there are rows; at most one prompt is
    /// up.
    pub open spec fn wf(&self) -> bool {
        let nodes = self.spec_tree()@;
        &&& !(self.spec_confirm_quit() && self.spec_confirm_delete())
        &&& self.spec_tree().wf()
        &&& self.spec_tree().consistent()
        &&& totals_fit(nodes)
        &&& self.spec_current() < nodes.len()
        &&& reaches(nodes, 0, self.spec_current() as int)
        &&& by_size(nodes, nodes[self.spec_current() as int].children@, self.spec_children())
        &&& if self.spec_children().len() == 0 {
            self.spec_selected() is None
        } else {
            self.spec_selected() is Some && self.spec_selected().unwrap() < self.spec_children().len()
        }
    }

    /// Everything but the cursor is as in `a`, and the cursor is `sel`.
    pub open spec fn moved(a: App, b: App, sel: Option<usize>) -> bool {
        &&& b.spec_tree()@ == a.spec_tree()@
        &&& b.spec_tree().spec_mode() == a.spec_tree().spec_mode()
        &&& b.spec_current() == a.spec_current()
        &&& b.spec_children() == a.spec_children()
        &&& b.spec_selected() == sel
        &&& b.spec_confirm_quit() == a.spec_confirm_quit()
        &&& b.spec_confirm_delete() == a.spec_confirm_delete()
        &&& b.spec_error() == a.spec_error()
        &&& b.spec_quit() == a.spec_quit()
    }

    /// Only the prompt and quit flags may differ from `a`.
    pub open spec fn flags_only(a: App, b: App) -> bool {
        &&& b.spec_tree()@ == a.spec_tree()@
        &&& b.spec_tree().spec_mode() == a.spec_tree().spec_mode()
        &&& b.spec_current() == a.spec_current()
        &&& b.spec_children() == a.spec_children()
        &&& b.spec_selected() == a.spec_selected()
        &&& b.spec_error() == a.spec_error()
    }

    /// The listing moved to `current` with the cursor on `keep`, over an
    /// unchanged tree.
    pub open spec fn relisted(a: App, b: App, current: usize, keep: Option<usize>) -> bool {
        &&& b.spec_tree()@ == a.spec_tree()@
        &&& b.spec_tree().spec_mode() == a.spec_tree().spec_mode()
        &&& b.lists(current, keep)
        &&& b.spec_confirm_quit() == a.spec_confirm_quit()
        &&& b.spec_confirm_delete() == a.spec_confirm_delete()
        &&& b.spec_error() == a.spec_error()
        &&& b.spec_quit() == a.spec_quit()
    }

    /// What a key does when no prompt is up and it is not Ctrl+D.
    pub open spec fn plain_key(a: App, b: App, key: Key) -> bool {
        let len = a.spec_children().len();
        if key == Key::Char('q') || key == Key::Esc {
            Self::flags_only(a, b) && b.spec_confirm_quit() && b.spec_confirm_delete()
                == a.spec_confirm_delete() && b.spec_quit() == a.spec_quit()
        } else if key == Key::Down || key == Key::Char('j') {
            Self::moved(a, b, next_row(a.spec_selected(), len))
        } else if key == Key::Up || key == Key::Char('k') {
            Self::moved(a, b, prev_row(a.spec_selected(), len))
        } else if key == Key::Enter || key == Key::Right || key == Key::Char('l') {
            match a.spec_selected_child() {
                Some(c) if a.spec_tree()@[c as int].children@.len() > 0 => Self::relisted(a, b, c, None),
                _ => Self::moved(a, b, a.spec_selected()),
            }
        } else if key == Key::Left || key == Key::Char('h') || key == Key::Backspace {
            match a.spec_tree()@[a.spec_current() as int].parent {
                Some(p) => Self::relisted(a, b, p, Some(a.spec_current())),
                None => Self::moved(a, b, a.spec_selected()),
            }
        } else if key == Key::Home {
            Self::moved(a, b, first_row(len))
        } else if key == Key::End {
            Self::moved(a, b, last_row(len))
        } else if key == Key::Char('a') {
            &&& b.spec_tree().spec_mode() == a.spec_tree().spec_mode().spec_toggled()
            &&& b.spec_tree()@ == recomputed(a.spec_tree()@, 0, b.spec_tree().spec_mode())
            &&& b.lists(a.spec_current(), a.spec_selected_child())
            &&& b.spec_confirm_quit() == a.spec_confirm_quit()
            &&& b.spec_confirm_delete() == a.spec_confirm_delete()
            &&& b.spec_error() == a.spec_error()
            &&& b.spec_quit() == a.spec_quit()
        } else {
            Self::moved(a, b, a.spec_selected())
        }
    }

    /// The navigator's answer to a key press.
    pub open spec fn after_key(a: App, b: App, key: Key, ctrl: bool, act: Action) -> bool {
        if a.spec_confirm_quit() {
            &&& Self::flags_only(a, b)
            &&& act == Action::Nothing
            &&& b.spec_confirm_delete() == a.spec_confirm_delete()
            &&& if is_yes(key) {
                b.spec_quit() && b.spec_confirm_quit()
            } else {
                !b.spec_confirm_quit() && b.spec_quit() == a.spec_quit()
            }
        } else if a.spec_confirm_delete() {
            &&& Self::flags_only(a, b)
            &&& !b.spec_confirm_delete()
            &&& b.spec_confirm_quit() == a.spec_confirm_quit()
            &&& b.spec_quit() == a.spec_quit()
            &&& act == if is_yes(key) {
                match a.spec_selected_child() {
                    Some(c) => Action::Delete(c),
                    None => Action::Nothing,
                }
            } else {
                Action::Nothing
            }
        } else if key == Key::Char('d') && ctrl {
            &&& Self::flags_only(a, b)
            &&& act == Action::Nothing
            &&& b.spec_confirm_delete() == (a.spec_selected() is Some)
            &&& b.spec_confirm_quit() == a.spec_confirm_quit()
            &&& b.spec_quit() == a.spec_quit()
        } else {
            &&& act == Action::Nothing
            &&& Self::plain_key(a, b, key)
        }
    }

    /// The navigator opened on `tree`'s root, cursor on the first row.
    pub fn new(tree: Tree) -> (app: App)
        requires
            tree.wf(),
            tree.consistent(),
            totals_fit(tree@),
        ensures
            app.wf(),
            app.spec_tree() == tree,
            app.lists(0, None),
            !app.spec_confirm_quit(),
            !app.spec_confirm_delete(),
            app.spec_error() is None,
            !app.spec_quit(),
    {
        let root = tree.root_idx();
        let mut app = App {
            tree,
            current: root,
            children: Vec::new(),
            selected: None,
            confirm_quit: false,
            confirm_delete: false,
            error: None,
            quit: false,
        };
        proof {
            crate::model::lemma_cnt_self(kids_of(app.tree@), 0);
        }
        app.rebuild(None);
        app
    }

    /// Refresh the child list for `current` and place the cursor on `keep`
    /// when it is listed, else on the first row.
    fn rebuild(&mut self, keep: Option<usize>)
        requires
            old(self).spec_tree().wf(),
            old(self).current < old(self).spec_tree()@.len(),
        ensures
            final(self).lists(old(self).current, keep),
            final(self).spec_tree() == old(self).spec_tree(),
            final(self).spec_confirm_quit() == old(self).spec_confirm_quit(),
            final(self).spec_confirm_delete() == old(self).spec_confirm_delete(),
            final(self).spec_error() == old(self).spec_error(),
            final(self).spec_quit() == old(self).spec_quit(),
    {
        self.children = self.tree.children_by_size(self.current);
        let pos: usize = match keep {
            Some(x) => match position(&self.children, x) {
                Some(k) => k,
                None => 0,
            },
            None => 0,
        };
        self.selected = if self.children.len() > 0 {
            Some(pos)
        } else {
            None
        };
    }

    /// The tree being browsed.
    pub fn tree(&self) -> (t: &Tree)
        ensures
            *t == self.spec_tree(),
    {
        &self.tree
    }

    /// Index of the directory being listed.
    pub fn current(&self) -> (c: usize)
        ensures
            c == self.spec_current(),
    {
        self.current
    }

    /// The listed children, largest first.
    pub fn children(&self) -> (cs: &Vec<usize>)
        ensures
            cs@ == self.spec_children(),
    {
        &self.children
    }

    /// The highlighted row.
    pub fn selected(&self) -> (r: Option<usize>)
        ensures
            r == self.spec_selected(),
    {
        self.selected
    }

    /// Whether the "really quit?" prompt is up.
    pub fn confirm_quit(&self) -> (b: bool)
        ensures
            b == self.spec_confirm_quit(),
    {
        self.confirm_quit
    }

    /// Whether the "delete this?" prompt is up.
    pub fn confirm_delete(&self) -> (b: bool)
        ensures
            b == self.spec_confirm_delete(),
    {
        self.confirm_delete
    }

    /// The last delete error, if any.
    pub fn error(&self) -> (e: &Option<String>)
        ensures
            match *e {
                Some(s) => self.spec_error() == Some(s@),
                None => self.spec_error() is None,
            },
    {
        &self.error
    }

    /// Whether the user has confirmed quitting.
    pub fn quit(&self) -> (b: bool)
        ensures
            b == self.spec_quit(),
    {
        self.quit
    }

    /// The child under the cursor.
    pub fn selected_child(&self) -> (c: Option<usize>)
        requires
            self.wf(),
        ensures
            c == self.spec_selected_child(),
    {
        match self.selected {
            Some(row) => Some(self.children[row]),
            None => None,
        }
    }

    /// Descend into the highlighted row if it is a directory.
    fn enter(&mut self)
        requires
            old(self).wf(),
        ensures
            final(self).wf(),
            match old(self).spec_selected_child() {
                Some(c) if old(self).spec_tree()@[c as int].children@.len() > 0 => Self::relisted(
                    *old(self),
                    *final(self),
                    c,
                    None,
                ),
                _ => Self::moved(*old(self), *final(self), old(self).spec_selected()),
            },
    {
        if let Some(child) = self.selected_child() {
            let nodes = self.tree.nodes();
            proof {
                let r = self.selected.unwrap();
                assert(self.spec_tree()@[self.current as int].children@.contains(self.children@[r as int]));
            }
            if nodes[child].is_dir() {
                proof {
                    let ns = self.tree@;
                    let cs = ns[self.current as int].children@;
                    let m = choose|m: int| 0 <= m < cs.len() && cs[m] == child;
                    assert(kids_of(ns)[self.current as int] == cs);
                    lemma_cnt_child(kids_of(ns), parents_of(ns), self.current as int, m, 0);
                    assert(child < ns.len());
                }
                self.current = child;
                self.rebuild(None);
            }
        }
    }

    /// Step up to the parent directory, the cursor on the directory left.
    fn go_up(&mut self)
        requires
            old(self).wf(),
        ensures
            final(self).wf(),
            match old(self).spec_tree()@[old(self).spec_current() as int].parent {
                Some(p) => Self::relisted(*old(self), *final(self), p, Some(old(self).spec_current())),
                None => Self::moved(*old(self), *final(self), old(self).spec_selected()),
            },
    {
        let nodes = self.tree.nodes();
        if let Some(parent) = nodes[self.current].parent {
            proof {
                let ns = self.tree@;
                assert(parents_of(ns)[self.current as int] == Some(parent));
                lemma_listed(kids_of(ns), parents_of(ns), self.current as int, 0);
            }
            let came_from = self.current;
            self.current = parent;
            self.rebuild(Some(came_from));
        }
    }

    /// Flip apparent and allocated sizes; the same entry stays highlighted.
    fn toggle_size_mode(&mut self)
        requires
            old(self).wf(),
        ensures
            final(self).wf(),
            final(self).spec_tree().spec_mode() == old(self).spec_tree().spec_mode().spec_toggled(),
            final(self).spec_tree()@ == recomputed(old(self).spec_tree()@, 0, final(self).spec_tree().spec_mode()),
            final(self).lists(old(self).spec_current(), old(self).spec_selected_child()),
            final(self).spec_confirm_quit() == old(self).spec_confirm_quit(),
            final(self).spec_confirm_delete() == old(self).spec_confirm_delete(),
            final(self).spec_error() == old(self).spec_error(),
            final(self).spec_quit() == old(self).spec_quit(),
    {
        let keep = self.selected_child();
        let ghost before = self.tree@;
        self.tree.toggle_mode();
        proof {
            let after = self.tree@;
            lemma_recomputed_shape(before, 0, self.tree.spec_mode());
            lemma_same_shape(before, after);
            assert forall|j: int|
                0 <= j < after.len() && #[trigger] reaches(after, 0, j) implies after[j].total_size as int
                    == crate::tree::subtree_size(after, j, self.tree.spec_mode()) by {
                crate::tree::lemma_weights_nonneg(before, self.tree.spec_mode());
                crate::model::lemma_reach_le(
                    kids_of(before),
                    crate::tree::weights(before, self.tree.spec_mode()),
                    j,
                    0,
                );
                crate::model::lemma_nonneg(kids_of(before), crate::tree::weights(before, self.tree.spec_mode()), j);
            }
        }
        self.rebuild(keep);
    }

    /// The caller has tried to remove the highlighted entry from disk:
    /// `Ok` when it is gone, `Err` with the reason otherwise. On success the
    /// entry is detached from the tree, its size taken off its ancestors, and
    /// the cursor stays on the same row or the last one; on failure the tree
    /// is untouched and the error is kept for the footer.
    pub fn deleted(&mut self, outcome: Result<(), String>)
        requires
            old(self).wf(),
        ensures
            final(self).wf(),
            final(self).spec_confirm_quit() == old(self).spec_confirm_quit(),
            final(self).spec_confirm_delete() == old(self).spec_confirm_delete(),
            final(self).spec_quit() == old(self).spec_quit(),
            match old(self).spec_selected_child() {
                None => Self::moved(*old(self), *final(self), old(self).spec_selected()),
                Some(c) => match outcome {
                    Ok(()) => {
                        &&& crate::tree::detached(old(self).spec_tree()@, final(self).spec_tree()@, c)
                        &&& final(self).spec_tree().spec_mode() == old(self).spec_tree().spec_mode()
                        &&& final(self).spec_current() == old(self).spec_current()
                        &&& by_size(
                            final(self).spec_tree()@,
                            final(self).spec_tree()@[final(self).spec_current() as int].children@,
                            final(self).spec_children(),
                        )
                        &&& final(self).spec_selected() == if final(self).spec_children().len() == 0 {
                            None
                        } else {
                            Some(
                                if old(self).spec_selected().unwrap() < final(self).spec_children().len() {
                                    old(self).spec_selected().unwrap()
                                } else {
                                    (final(self).spec_children().len() - 1) as usize
                                },
                            )
                        }
                        &&& final(self).spec_error() is None
                        &&& !final(self).spec_children().contains(c)
                    },
                    Err(e) => {
                        &&& final(self).spec_tree()@ == old(self).spec_tree()@
                        &&& final(self).spec_tree().spec_mode() == old(self).spec_tree().spec_mode()
                        &&& final(self).spec_current() == old(self).spec_current()
                        &&& final(self).spec_children() == old(self).spec_children()
                        &&& final(self).spec_selected() == old(self).spec_selected()
                        &&& final(self).spec_error() == Some("Delete failed: "@ + e@)
                    },
                },
            },
    {
        let child = match self.selected_child() {
            Some(c) => c,
            None => return,
        };
        let row = match self.selected {
            Some(r) => r,
            None => 0,
        };
        match outcome {
            Ok(()) => {
                let ghost before = self.tree@;
                let ghost cur = self.current as int;
                proof {
                    let cs = before[cur].children@;
                    assert(cs.contains(child));
                    let m = choose|m: int| 0 <= m < cs.len() && cs[m] == child;
                    assert(kids_of(before)[cur] == cs);
                    lemma_cnt_child(kids_of(before), parents_of(before), cur, m, 0);
                }
                self.tree.delete(child);
                proof {
                    let after = self.tree@;
                    let ka = kids_of(before);
                    let ps = parents_of(before);
                    let cs = before[cur].children@;
                    let m = choose|m: int| 0 <= m < cs.len() && cs[m] == child;
                    assert(ka[cur][m] == child);
                    assert(ps[child as int] == Some(self.current));
                    assert(kids_of(after) =~= ka.update(cur, crate::sums::without(ka[cur], child)));
                    assert(ka[cur].contains(child));
                    let e = ind(ka.len() as int, cur);
                    lemma_detach(ka, ps, e, cur, child, kids_of(after), 0);
                    lemma_cnt_nonneg(ka, cur, child as int);
                    if crate::model::cnt(ka, cur, child as int) > 0 {
                        lemma_reach_above(ka, cur, child as int);
                    }
                    let q = crate::model::cnt(ka, cur, 0);
                    assert(q * 0 == 0);
                }
                self.error = None;
                self.children = self.tree.children_by_size(self.current);
                let len = self.children.len();
                proof {
                    let after = self.tree@;
                    let cs2 = self.children@;
                    if cs2.contains(child) {
                        let i = choose|i: int| 0 <= i < cs2.len() && cs2[i] == child;
                        assert(after[self.current as int].children@.contains(child));
                        assert(after[self.current as int].children@ == crate::sums::without(
                            before[self.current as int].children@,
                            child,
                        ));
                        crate::sums::lemma_without_contains(before[self.current as int].children@, child, child);
                    }
                }
                self.selected = if len == 0 {
                    None
                } else if row < len {
                    Some(row)
                } else {
                    Some(len - 1)
                };
            },
            Err(e) => {
                let msg = String::from_str("Delete failed: ").concat(e.as_str());
                self.error = Some(msg);
            },
        }
    }

    /// Answer a key press (with whether Ctrl was held). While a prompt is up
    /// it captures every key: only an explicit yes commits, anything else
    /// backs out. A confirmed delete is handed back as an [`Action`].
    pub fn on_key(&mut self, key: Key, ctrl: bool) -> (act: Action)
        requires
            old(self).wf(),
        ensures
            final(self).wf(),
            Self::after_key(*old(self), *final(self), key, ctrl, act),
    {
        if self.confirm_quit {
            match key {
                Key::Char('y') | Key::Char('Y') | Key::Enter => self.quit = true,
                _ => self.confirm_quit = false,
            }
            return Action::Nothing;
        }
        if self.confirm_delete {
            self.confirm_delete = false;
            match key {
                Key::Char('y') | Key::Char('Y') | Key::Enter => {
                    return match self.selected_child() {
                        Some(c) => Action::Delete(c),
                        None => Action::Nothing,
                    };
                },
                _ => {},
            }
            return Action::Nothing;
        }
        if key == Key::Char('d') && ctrl {
            if self.selected.is_some() {
                self.confirm_delete = true;
            }
            return Action::Nothing;
        }
        let len = self.children.len();
        match key {
            Key::Char('q') | Key::Esc => self.confirm_quit = true,
            Key::Down | Key::Char('j') => {
                self.selected = match self.selected {
                    Some(i) => Some(
                        if i + 1 < len {
                            i + 1
                        } else {
                            len - 1
                        },
                    ),
                    None => if len > 0 {
                        Some(0)
                    } else {
                        None
                    },
                };
            },
            Key::Up | Key::Char('k') => {
                self.selected = match self.selected {
                    Some(i) => Some(
                        if i > 0 {
                            i - 1
                        } else {
                            0
                        },
                    ),
                    None => if len > 0 {
                        Some(len - 1)
                    } else {
                        None
                    },
                };
            },
            Key::Enter | Key::Right | Key::Char('l') => self.enter(),
            Key::Left | Key::Char('h') | Key::Backspace => self.go_up(),
            Key::Home => {
                self.selected = if len > 0 {
                    Some(0)
                } else {
                    None
                };
            },
            Key::End => {
                self.selected = if len > 0 {
                    Some(len - 1)
                } else {
                    None
                };
            },
            Key::Char('a') => self.toggle_size_mode(),
            _ => {},
        }
        Action::Nothing
    }
}

/// Quitting always takes a confirmation: a key press that sets the quit flag
/// answered "yes" to the quit prompt.
pub proof fn lemma_quit_needs_confirmation(a: App, b: App, key: Key, ctrl: bool, act: Action)
    requires
        App::after_key(a, b, key, ctrl, act),
        !a.spec_quit(),
        b.spec_quit(),
    ensures
        a.spec_confirm_quit(),
        is_yes(key),
{
}

/// Nothing is deleted without a confirmation: a delete is only asked for by
/// a "yes" to the delete prompt, and only for the highlighted child.
pub proof fn lemma_delete_needs_confirmation(a: App, b: App, key: Key, ctrl: bool, c: usize)
    requires
        App::after_key(a, b, key, ctrl, Action::Delete(c)),
    ensures
        a.spec_confirm_delete(),
        is_yes(key),
        a.spec_selected_child() == Some(c),
        !b.spec_confirm_delete(),
{
}

/// Entering the highlighted directory and stepping back up restores the
/// listing, with the directory just left highlighted.
pub proof fn lemma_enter_then_up(a: App, b: App, c: App, act1: Action, act2: Action)
    requires
        a.wf(),
        b.wf(),
        !a.spec_confirm_quit(),
        !a.spec_confirm_delete(),
        a.spec_selected_child() matches Some(d) && a.spec_tree()@[d as int].children@.len() > 0,
        App::after_key(a, b, Key::Enter, false, act1),
        App::after_key(b, c, Key::Left, false, act2),
    ensures
        c.spec_current() == a.spec_current(),
        c.spec_children() == a.spec_children(),
        c.spec_selected_child() == a.spec_selected_child(),
        c.spec_tree()@ == a.spec_tree()@,
{
    let d = a.spec_selected_child().unwrap();
    let nodes = a.spec_tree()@;
    let cur = a.spec_current() as int;
    let cs = nodes[cur].children@;
    let r = a.spec_selected().unwrap();
    assert(cs.contains(a.spec_children()[r as int]));
    let m = choose|m: int| 0 <= m < cs.len() && cs[m] == d;
    assert(kids_of(nodes)[cur] == cs);
    assert(kids_of(nodes)[cur][m] == d);
    assert(parents_of(nodes)[d as int] == nodes[d as int].parent);
    assert(nodes[d as int].parent == Some(a.spec_current()));
    assert(cs.no_duplicates());
    crate::tree::lemma_by_size_unique(nodes, cs, c.spec_children(), a.spec_children());
    let rc = c.spec_selected().unwrap();
    assert(c.spec_children().contains(d));
}

/// A "yes" to the quit prompt (y, Y or Enter) quits; any other key closes
/// the prompt and leaves the quit flag as it was. Nothing else changes.
pub proof fn lemma_quit_prompt(a: App, b: App, key: Key, ctrl: bool, act: Action)
    requires
        a.wf(),
        a.spec_confirm_quit(),
        App::after_key(a, b, key, ctrl, act),
    ensures
        act == Action::Nothing,
        key == Key::Char('y') || key == Key::Char('Y') || key == Key::Enter ==> b.spec_quit(),
        !(key == Key::Char('y') || key == Key::Char('Y') || key == Key::Enter) ==> !b.spec_confirm_quit()
            && b.spec_quit() == a.spec_quit(),
        b.spec_tree()@ == a.spec_tree()@,
        b.spec_current() == a.spec_current(),
        b.spec_children() == a.spec_children(),
        b.spec_selected() == a.spec_selected(),
{
}

/// A "yes" to the delete prompt (y, Y or Enter) asks for the removal of the
/// highlighted child; any other key asks for nothing. Either way the prompt
/// closes and the listing stays.
pub proof fn lemma_delete_prompt(a: App, b: App, key: Key, ctrl: bool, act: Action)
    requires
        a.wf(),
        a.spec_confirm_delete(),
        App::after_key(a, b, key, ctrl, act),
    ensures
        !b.spec_confirm_delete(),
        b.spec_quit() == a.spec_quit(),
        (key == Key::Char('y') || key == Key::Char('Y') || key == Key::Enter) && a.spec_selected() is Some ==> act
            == Action::Delete(a.spec_children()[a.spec_selected().unwrap() as int]),
        !(key == Key::Char('y') || key == Key::Char('Y') || key == Key::Enter) ==> act == Action::Nothing,
        b.spec_tree()@ == a.spec_tree()@,
        b.spec_current() == a.spec_current(),
        b.spec_children() == a.spec_children(),
        b.spec_selected() == a.spec_selected(),
{
}

/// With no prompt up, q and Esc open the quit prompt without quitting, and
/// Ctrl+D opens the delete prompt when a row is highlighted.
pub proof fn lemma_prompts_open(a: App, b: App, key: Key, ctrl: bool, act: Action)
    requires
        a.wf(),
        !a.spec_confirm_quit(),
        !a.spec_confirm_delete(),
        App::after_key(a, b, key, ctrl, act),
    ensures
        key == Key::Char('q') || key == Key::Esc ==> b.spec_confirm_quit() && b.spec_quit() == a.spec_quit()
            && !b.spec_confirm_delete(),
        key == Key::Char('d') && ctrl ==> b.spec_confirm_delete() == (a.spec_children().len() > 0)
            && !b.spec_confirm_quit() && b.spec_quit() == a.spec_quit(),
        key == Key::Char('q') || key == Key::Esc || (key == Key::Char('d') && ctrl) ==> {
            &&& b.spec_tree()@ == a.spec_tree()@
            &&& b.spec_current() == a.spec_current()
            &&& b.spec_children() == a.spec_children()
            &&& b.spec_selected() == a.spec_selected()
        },
        act == Action::Nothing,
{
}

/// With no prompt up, a key the navigator has no use for changes nothing.
pub proof fn lemma_other_keys(a: App, b: App, key: Key, ctrl: bool, act: Action)
    requires
        a.wf(),
        !a.spec_confirm_quit(),
        !a.spec_confirm_delete(),
        App::after_key(a, b, key, ctrl, act),
        !(key == Key::Char('d') && ctrl),
        key != Key::Char('q'),
        key != Key::Esc,
        key != Key::Up,
        key != Key::Char('k'),
        key != Key::Down,
        key != Key::Char('j'),
        key != Key::Home,
        key != Key::End,
        key != Key::Enter,
        key != Key::Right,
        key != Key::Char('l'),
        key != Key::Left,
        key != Key::Char('h'),
        key != Key::Backspace,
        key != Key::Char('a'),
    ensures
        act == Action::Nothing,
        b.spec_tree()@ == a.spec_tree()@,
        b.spec_tree().spec_mode() == a.spec_tree().spec_mode(),
        b.spec_current() == a.spec_current(),
        b.spec_children() == a.spec_children(),
        b.spec_selected() == a.spec_selected(),
        b.spec_confirm_quit() == a.spec_confirm_quit(),
        b.spec_confirm_delete() == a.spec_confirm_delete(),
        b.spec_quit() == a.spec_quit(),
{
}

/// With no prompt up, the cursor keys move the highlight within the listing:
/// Up and k one row up (staying on the first row), Down and j one row down
/// (staying on the last), Home to the first row, End to the last. The
/// listing itself stays.
pub proof fn lemma_cursor_keys(a: App, b: App, key: Key, ctrl: bool, act: Action)
    requires
        a.wf(),
        !a.spec_confirm_quit(),
        !a.spec_confirm_delete(),
        App::after_key(a, b, key, ctrl, act),
        !(key == Key::Char('d') && ctrl),
        key == Key::Up || key == Key::Char('k') || key == Key::Down || key == Key::Char('j') || key == Key::Home
            || key == Key::End,
    ensures
        b.spec_tree()@ == a.spec_tree()@,
        b.spec_current() == a.spec_current(),
        b.spec_children() == a.spec_children(),
        b.spec_quit() == a.spec_quit(),
        a.spec_children().len() == 0 ==> b.spec_selected() is None,
        (key == Key::Up || key == Key::Char('k')) && a.spec_selected() is Some ==> b.spec_selected() == Some(
            if a.spec_selected().unwrap() > 0 {
                (a.spec_selected().unwrap() - 1) as usize
            } else {
                0usize
            },
        ),
        (key == Key::Down || key == Key::Char('j')) && a.spec_selected() is Some ==> b.spec_selected() == Some(
            if a.spec_selected().unwrap() + 1 < a.spec_children().len() {
                (a.spec_selected().unwrap() + 1) as usize
            } else {
                a.spec_selected().unwrap()
            },
        ),
        key == Key::Home && a.spec_children().len() > 0 ==> b.spec_selected() == Some(0usize),
        key == Key::End && a.spec_children().len() > 0 ==> b.spec_selected() == Some(
            (a.spec_children().len() - 1) as usize,
        ),
{
}

/// With no prompt up, Enter, Right and l list the highlighted child when it
/// is a directory, largest first with the first row highlighted; on a file,
/// or with nothing highlighted, nothing changes.
pub proof fn lemma_enter_lists_child(a: App, b: App, key: Key, ctrl: bool, act: Action)
    requires
        a.wf(),
        !a.spec_confirm_quit(),
        !a.spec_confirm_delete(),
        App::after_key(a, b, key, ctrl, act),
        key == Key::Enter || key == Key::Right || key == Key::Char('l'),
    ensures
        b.spec_tree()@ == a.spec_tree()@,
        b.spec_quit() == a.spec_quit(),
        !b.spec_confirm_quit(),
        forall|c: usize|
            a.spec_selected_child() == Some(c) && a.spec_tree()@[c as int].children@.len() > 0 ==> {
                &&& b.spec_current() == c
                &&& by_size(a.spec_tree()@, a.spec_tree()@[c as int].children@, b.spec_children())
                &&& b.spec_selected() == Some(0usize)
            },
        !(a.spec_selected_child() matches Some(c) && a.spec_tree()@[c as int].children@.len() > 0) ==> {
            &&& b.spec_current() == a.spec_current()
            &&& b.spec_children() == a.spec_children()
            &&& b.spec_selected() == a.spec_selected()
        },
{
}

/// With no prompt up, Left, h and Backspace list the parent of the listed
/// directory, largest first, with the directory just left highlighted; at
/// the root nothing changes.
pub proof fn lemma_back_lists_parent(a: App, b: App, key: Key, ctrl: bool, act: Action)
    requires
        a.wf(),
        !a.spec_confirm_quit(),
        !a.spec_confirm_delete(),
        App::after_key(a, b, key, ctrl, act),
        key == Key::Left || key == Key::Char('h') || key == Key::Backspace,
    ensures
        b.spec_tree()@ == a.spec_tree()@,
        b.spec_quit() == a.spec_quit(),
        !b.spec_confirm_quit(),
        forall|p: usize|
            a.spec_tree()@[a.spec_current() as int].parent == Some(p) ==> {
                &&& b.spec_current() == p
                &&& by_size(a.spec_tree()@, a.spec_tree()@[p as int].children@, b.spec_children())
                &&& b.spec_selected_child() == Some(a.spec_current())
            },
        a.spec_tree()@[a.spec_current() as int].parent is None ==> {
            &&& b.spec_current() == a.spec_current()
            &&& b.spec_children() == a.spec_children()
            &&& b.spec_selected() == a.spec_selected()
        },
{
    let nodes = a.spec_tree()@;
    let cur = a.spec_current() as int;
    if let Some(p) = nodes[cur].parent {
        assert(parents_of(nodes)[cur] == Some(p));
        assert(cur != 0);
        lemma_listed(kids_of(nodes), parents_of(nodes), cur, 0);
        assert(kids_of(nodes)[p as int] == nodes[p as int].children@);
        crate::tree::lemma_by_size_covers(nodes, nodes[p as int].children@, b.spec_children(), cur as usize);
    }
}

/// With no prompt up, `a` flips the size mode and recomputes every total,
/// and the entry highlighted before stays highlighted, wherever the new
/// order puts it; the listed directory stays.
pub proof fn lemma_toggle_keeps_entry(a: App, b: App, ctrl: bool, act: Action)
    requires
        a.wf(),
        !a.spec_confirm_quit(),
        !a.spec_confirm_delete(),
        App::after_key(a, b, Key::Char('a'), ctrl, act),
    ensures
        b.spec_tree().spec_mode() == a.spec_tree().spec_mode().spec_toggled(),
        b.spec_tree()@ == recomputed(a.spec_tree()@, 0, b.spec_tree().spec_mode()),
        b.spec_current() == a.spec_current(),
        by_size(b.spec_tree()@, a.spec_tree()@[a.spec_current() as int].children@, b.spec_children()),
        b.spec_selected_child() == a.spec_selected_child(),
        b.spec_quit() == a.spec_quit(),
{
    let nodes = a.spec_tree()@;
    let m = b.spec_tree().spec_mode();
    let cur = a.spec_current() as int;
    let after = b.spec_tree()@;
    lemma_recomputed_shape(nodes, 0, m);
    lemma_same_shape(nodes, after);
    assert(after[cur] == crate::tree::with_total(nodes[cur], after[cur].total_size));
    assert(after[cur].children@ == nodes[cur].children@);
    if let Some(r) = a.spec_selected() {
        let c = a.spec_children()[r as int];
        assert(nodes[cur].children@.contains(c));
        assert(kids_of(nodes)[cur] == nodes[cur].children@);
        crate::tree::lemma_by_size_covers(after, after[cur].children@, b.spec_children(), c);
    }
}

/// Where `x` is listed in `cs`, if it is.
fn position(cs: &Vec<usize>, x: usize) -> (r: Option<usize>)
    ensures
        match r {
            Some(k) => k < cs.len() && cs@[k as int] == x,
            None => !cs@.contains(x),
        },
{
    let mut k: usize = 0;
    while k < cs.len()
        invariant
            k <= cs.len(),
            forall|j: int| 0 <= j < k ==> cs@[j] != x,
        decreases cs.len() - k,
    {
        if cs[k] == x {
            return Some(k);
        }
        k = k + 1;
    }
    None
}

} // verus!
