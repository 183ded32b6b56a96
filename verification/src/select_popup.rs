//! Selection state for a pick-one-or-many list of options.

use vstd::prelude::*;

use crate::models::str_eq;

verus! {

/// A list of options with a highlight cursor and, in multi-select mode, a
/// set of checked positions held in increasing order.
pub struct SelectPopupComponent {
    pub title: String,
    pub options: Vec<String>,
    pub current_index: usize,
    pub scroll_offset: usize,
    pub multi_select: bool,
    pub selected_indices: Vec<usize>,
}

impl SelectPopupComponent {
    /// The checked positions are strictly increasing and in range.
    pub open spec fn wf(self) -> bool {
        &&& (forall|a: int, b: int|
            0 <= a < b < self.selected_indices@.len() ==> self.selected_indices@[a]
                < self.selected_indices@[b])
        &&& (forall|a: int|
            0 <= a < self.selected_indices@.len() ==> (#[trigger] self.selected_indices@[a] as int)
                < self.options@.len())
        &&& (self.options@.len() > 0 ==> (self.current_index as int) < self.options@.len())
        &&& (self.options@.len() == 0 ==> self.current_index == 0)
    }

    /// A position is checked.
    pub open spec fn is_selected(self, i: int) -> bool {
        exists|a: int|
            0 <= a < self.selected_indices@.len() && (#[trigger] self.selected_indices@[a] as int)
                == i
    }

    pub fn new(title: String, options: Vec<String>) -> (c: SelectPopupComponent)
        ensures
            c.wf(),
            c.title == title,
            c.options == options,
            c.current_index == 0,
            c.multi_select == false,
            forall|i: int| !c.is_selected(i),
    {
        let c = SelectPopupComponent {
            title,
            options,
            current_index: 0,
            scroll_offset: 0,
            multi_select: false,
            selected_indices: Vec::new(),
        };
        proof {
            assert forall|i: int| !c.is_selected(i) by {}
        }
        c
    }

    /// Clears the options, the cursor, and every check mark.
    pub fn reset(&mut self)
        ensures
            final(self).wf(),
            final(self).options@.len() == 0,
            final(self).current_index == 0,
            final(self).multi_select == false,
            forall|i: int| !final(self).is_selected(i),
    {
        self.options.clear();
        self.current_index = 0;
        self.scroll_offset = 0;
        self.selected_indices.clear();
        self.multi_select = false;
        proof {
            assert forall|i: int| !self.is_selected(i) by {}
        }
    }

    /// Moves the highlight down one entry, wrapping at the bottom.
    pub fn select_next(&mut self)
        requires
            old(self).wf(),
        ensures
            final(self).wf(),
            final(self).title == old(self).title,
            final(self).options == old(self).options,
            final(self).scroll_offset == old(self).scroll_offset,
            final(self).multi_select == old(self).multi_select,
            final(self).selected_indices == old(self).selected_indices,
            final(self).current_index as int == if old(self).options@.len() == 0 {
                old(self).current_index as int
            } else if old(self).current_index as int + 1 < old(self).options@.len() {
                old(self).current_index as int + 1
            } else {
                0
            },
    {
        if self.options.len() == 0 {
            return ;
        }
        if self.current_index < self.options.len() - 1 {
            self.current_index = self.current_index + 1;
        } else {
            self.current_index = 0;
        }
    }

    /// Moves the highlight up one entry, wrapping at the top.
    pub fn select_previous(&mut self)
        requires
            old(self).wf(),
        ensures
            final(self).wf(),
            final(self).title == old(self).title,
            final(self).options == old(self).options,
            final(self).scroll_offset == old(self).scroll_offset,
            final(self).multi_select == old(self).multi_select,
            final(self).selected_indices == old(self).selected_indices,
            final(self).current_index as int == if old(self).options@.len() == 0 {
                old(self).current_index as int
            } else if old(self).current_index > 0 {
                old(self).current_index - 1
            } else {
                old(self).options@.len() - 1
            },
    {
        if self.options.len() == 0 {
            return ;
        }
        if self.current_index > 0 {
            self.current_index = self.current_index - 1;
        } else {
            self.current_index = self.options.len() - 1;
        }
    }

    /// In multi-select mode, flips the check mark under the highlight.
    pub fn toggle_selection(&mut self)
        requires
            old(self).wf(),
        ensures
            final(self).wf(),
            final(self).title == old(self).title,
            final(self).options == old(self).options,
            final(self).scroll_offset == old(self).scroll_offset,
            final(self).current_index == old(self).current_index,
            final(self).multi_select == old(self).multi_select,
            !old(self).multi_select || old(self).options@.len() == 0 ==> *final(self) == *old(
                self,
            ),
            old(self).multi_select && old(self).options@.len() > 0 ==> {
                &&& final(self).is_selected(old(self).current_index as int) == !old(
                    self,
                ).is_selected(old(self).current_index as int)
                &&& (forall|i: int|
                    i != old(self).current_index as int ==> final(self).is_selected(i) == old(
                        self,
                    ).is_selected(i))
            },
    {
        if !self.multi_select {
            return ;
        }
        if self.options.len() == 0 {
            return ;
        }
        let cur = self.current_index;
        let n = self.selected_indices.len();
        let ghost s0 = self.selected_indices@;
        // find the insertion point: the first position not below the cursor
        let mut at: usize = 0;
        while at < n && self.selected_indices[at] < cur
            invariant
                n == self.selected_indices@.len(),
                at <= n,
                self.selected_indices@ == s0,
                forall|a: int| 0 <= a < at ==> (#[trigger] s0[a]) < cur,
            decreases n - at,
        {
            at = at + 1;
        }
        if at < n && self.selected_indices[at] == cur {
            // checked already: remove it
            self.selected_indices.remove(at);
            proof {
                let s1 = self.selected_indices@;
                assert(s1 =~= s0.remove(at as int));
                assert forall|a: int, b: int| 0 <= a < b < s1.len() implies s1[a] < s1[b] by {
                    let a1 = if a < at {
                        a
                    } else {
                        a + 1
                    };
                    let b1 = if b < at {
                        b
                    } else {
                        b + 1
                    };
                    assert(s1[a] == s0[a1] && s1[b] == s0[b1]);
                }
                assert(!self.is_selected(cur as int)) by {
                    if self.is_selected(cur as int) {
                        let a = choose|a: int|
                            0 <= a < s1.len() && (#[trigger] s1[a] as int) == cur as int;
                        let a1 = if a < at {
                            a
                        } else {
                            a + 1
                        };
                        assert(s1[a] == s0[a1]);
                        if a1 < at {
                            assert(s0[a1] < cur);
                        } else {
                            assert(a1 > at);
                            assert(s0[at as int] < s0[a1]);
                        }
                    }
                }
                assert(old(self).is_selected(cur as int)) by {
                    assert((s0[at as int] as int) == cur as int);
                }
                assert forall|i: int|
                    i != cur as int implies self.is_selected(i) == old(self).is_selected(i) by {
                    if self.is_selected(i) {
                        let a = choose|a: int|
                            0 <= a < s1.len() && (#[trigger] s1[a] as int) == i;
                        let a1 = if a < at {
                            a
                        } else {
                            a + 1
                        };
                        assert((s0[a1] as int) == i);
                    }
                    if old(self).is_selected(i) {
                        let a = choose|a: int|
                            0 <= a < s0.len() && (#[trigger] s0[a] as int) == i;
                        assert(a != at);
                        let a1 = if a < at {
                            a
                        } else {
                            a - 1
                        };
                        assert((s1[a1] as int) == i);
                    }
                }
            }
        } else {
            // not checked: insert it, keeping the order
            self.selected_indices.insert(at, cur);
            proof {
                let s1 = self.selected_indices@;
                assert(s1 =~= s0.insert(at as int, cur));
                assert(s1[at as int] == cur);
                assert forall|a: int, b: int| 0 <= a < b < s1.len() implies s1[a] < s1[b] by {
                    let a1 = if a < at {
                        a
                    } else {
                        a - 1
                    };
                    let b1 = if b < at {
                        b
                    } else {
                        b - 1
                    };
                    if a == at as int {
                        assert(s1[b] == s0[b1]);
                        assert(!(s0[b1] < cur));
                        assert(s0[b1] != cur) by {
                            if at < n {
                                assert(s0[at as int] != cur);
                                if b1 > at {
                                    assert(s0[at as int] < s0[b1]);
                                    assert(!(s0[at as int] < cur));
                                }
                            }
                        }
                    } else if b == at as int {
                        assert(s1[a] == s0[a1]);
                        assert(s0[a1] < cur);
                    } else {
                        assert(s1[a] == s0[a1] && s1[b] == s0[b1]);
                        if a1 < at && b1 >= at {
                            assert(s0[a1] < cur);
                            assert(!(s0[b1] < cur));
                            assert(s0[b1] != cur) by {
                                if b1 > at {
                                    assert(s0[at as int] < s0[b1]);
                                    assert(!(s0[at as int] < cur));
                                }
                            }
                        }
                    }
                }
                assert(self.is_selected(cur as int)) by {
                    assert((s1[at as int] as int) == cur as int);
                }
                assert(!old(self).is_selected(cur as int)) by {
                    if old(self).is_selected(cur as int) {
                        let a = choose|a: int|
                            0 <= a < s0.len() && (#[trigger] s0[a] as int) == cur as int;
                        if a < at {
                            assert(s0[a] < cur);
                        } else if a == at as int {
                            assert(at < n);
                        } else {
                            assert(at < n);
                            assert(s0[at as int] < s0[a]);
                            assert(!(s0[at as int] < cur));
                        }
                    }
                }
                assert forall|i: int|
                    i != cur as int implies self.is_selected(i) == old(self).is_selected(i) by {
                    if self.is_selected(i) {
                        let a = choose|a: int|
                            0 <= a < s1.len() && (#[trigger] s1[a] as int) == i;
                        assert(a != at);
                        let a1 = if a < at {
                            a
                        } else {
                            a - 1
                        };
                        assert((s0[a1] as int) == i);
                    }
                    if old(self).is_selected(i) {
                        let a = choose|a: int|
                            0 <= a < s0.len() && (#[trigger] s0[a] as int) == i;
                        let a1 = if a < at {
                            a
                        } else {
                            a + 1
                        };
                        assert((s1[a1] as int) == i);
                    }
                }
            }
        }
    }

    /// The chosen options: every checked one in multi-select mode, the
    /// highlighted one otherwise.
    pub fn get_selected_items(&self) -> (r: Vec<String>)
        requires
            self.wf(),
        ensures
            self.multi_select ==> {
                &&& r@.len() == self.selected_indices@.len()
                &&& (forall|a: int|
                    0 <= a < r@.len() ==> r.deep_view()[a] == self.options.deep_view()[
                    self.selected_indices@[a] as int])
            },
            !self.multi_select ==> if (self.current_index as int) < self.options@.len() {
                r.deep_view() =~= seq![self.options.deep_view()[self.current_index as int]]
            } else {
                r@.len() == 0
            },
    {
        if self.multi_select {
            let mut out: Vec<String> = Vec::new();
            let n = self.selected_indices.len();
            for a in 0..n
                invariant
                    self.wf(),
                    n == self.selected_indices@.len(),
                    out@.len() == a,
                    forall|b: int|
                        0 <= b < a ==> out.deep_view()[b] == self.options.deep_view()[
                        self.selected_indices@[b] as int],
            {
                let ghost opre = out.deep_view();
                out.push(self.options[self.selected_indices[a]].clone());
                proof {
                    assert(out.deep_view() =~= opre.push(
                        self.options@[self.selected_indices@[a as int] as int]@,
                    ));
                    assert forall|b: int|
                        0 <= b < a + 1 implies out.deep_view()[b] == self.options.deep_view()[
                    self.selected_indices@[b] as int] by {
                        if b == a as int {
                            assert(out.deep_view()[b] == self.options@[self.selected_indices@[
                            b] as int]@);
                            assert(self.options.deep_view()[self.selected_indices@[b] as int]
                                == self.options@[self.selected_indices@[b] as int]@);
                        } else {
                            assert(out.deep_view()[b] == opre[b]);
                        }
                    }
                }
            }
            out
        } else {
            let mut out: Vec<String> = Vec::new();
            if self.current_index < self.options.len() {
                out.push(self.options[self.current_index].clone());
                proof {
                    assert(out.deep_view() =~= seq![
                        self.options.deep_view()[self.current_index as int],
                    ]);
                }
            }
            out
        }
    }
}

} // verus!
