use vstd::prelude::*;

verus! {

// ---------------------------------------------------------------------------
// Radio-group selection logic: which of a set of mutually exclusive buttons
// is selected, driven by click actions coming from the widget layer.
// ---------------------------------------------------------------------------

/// How a radio button is drawn: a round dot or a tab.
#[derive(Clone, Copy, PartialEq, Eq, Structural, Debug)]
pub enum RadioType {
    Round,
    Tab,
}

/// What a radio button reports from an event: it was clicked, or nothing.
#[derive(Clone, Copy, PartialEq, Eq, Structural, Debug)]
pub enum RadioButtonAction {
    Clicked,
    Idle,
}

/// One action reported by the widget layer: which widget, and what happened.
#[derive(Clone, Copy, PartialEq, Eq, Structural, Debug)]
pub struct WidgetAction {
    pub widget_uid: u64,
    pub action: RadioButtonAction,
}

/// A reference to one radio button: the widget it stands for and whether it
/// is currently selected.
#[derive(Clone, Copy, PartialEq, Eq, Structural, Debug)]
pub struct RadioButtonRef {
    pub widget_uid: u64,
    pub selected: bool,
}

impl RadioButtonRef {
    /// Deselects this button.
    pub fn unselect(&mut self)
        ensures
            final(self).widget_uid == old(self).widget_uid,
            !final(self).selected,
    {
        self.selected = false;
    }
}

/// The first index of `buttons` whose widget has the given uid.
pub open spec fn first_uid_index(buttons: Seq<RadioButtonRef>, uid: u64) -> Option<int>
    decreases buttons.len(),
{
    if buttons.len() == 0 {
        Option::None
    } else if buttons[0].widget_uid == uid {
        Some(0int)
    } else {
        match first_uid_index(buttons.drop_first(), uid) {
            Some(j) => Some(j + 1),
            Option::None => Option::None,
        }
    }
}

proof fn lemma_first_uid_found(buttons: Seq<RadioButtonRef>, uid: u64, i: int)
    requires
        0 <= i < buttons.len(),
        buttons[i].widget_uid == uid,
        forall|j: int| 0 <= j < i ==> (#[trigger] buttons[j]).widget_uid != uid,
    ensures
        first_uid_index(buttons, uid) == Some(i),
    decreases i,
{
    if i > 0 {
        assert(forall|j: int|
            0 <= j < buttons.drop_first().len() ==> #[trigger] buttons.drop_first()[j]
                == buttons[j + 1]);
        lemma_first_uid_found(buttons.drop_first(), uid, i - 1);
    }
}

proof fn lemma_first_uid_missing(buttons: Seq<RadioButtonRef>, uid: u64)
    requires
        forall|j: int| 0 <= j < buttons.len() ==> (#[trigger] buttons[j]).widget_uid != uid,
    ensures
        first_uid_index(buttons, uid) is None,
    decreases buttons.len(),
{
    if buttons.len() > 0 {
        assert(forall|j: int|
            0 <= j < buttons.drop_first().len() ==> #[trigger] buttons.drop_first()[j]
                == buttons[j + 1]);
        lemma_first_uid_missing(buttons.drop_first(), uid);
    }
}

/// The index of the first button of `buttons` whose widget a click action
/// names.
pub open spec fn clicked_index(buttons: Seq<RadioButtonRef>, action: WidgetAction) -> Option<
    int,
> {
    if action.action == RadioButtonAction::Clicked {
        first_uid_index(buttons, action.widget_uid)
    } else {
        Option::None
    }
}

/// The index the first matching click among `actions` selects, if any.
pub open spec fn selected_index(buttons: Seq<RadioButtonRef>, actions: Seq<WidgetAction>) -> Option<
    int,
>
    decreases actions.len(),
{
    if actions.len() == 0 {
        Option::None
    } else {
        match clicked_index(buttons, actions[0]) {
            Some(i) => Some(i),
            Option::None => selected_index(buttons, actions.drop_first()),
        }
    }
}

/// A group of mutually exclusive radio buttons.
#[derive(Clone, PartialEq, Eq, Debug)]
pub struct RadioGroupRef {
    buttons: Vec<RadioButtonRef>,
}

impl View for RadioGroupRef {
    type V = Seq<RadioButtonRef>;

    closed spec fn view(&self) -> Seq<RadioButtonRef> {
        self.buttons@
    }
}

impl RadioGroupRef {
    pub fn from_buttons(buttons: Vec<RadioButtonRef>) -> (r: RadioGroupRef)
        ensures
            r@ == buttons@,
    {
        RadioGroupRef { buttons }
    }

    pub fn button_count(&self) -> (r: usize)
        ensures
            r == self@.len(),
    {
        self.buttons.len()
    }

    pub fn button(&self, i: usize) -> (r: RadioButtonRef)
        requires
            i < self@.len(),
        ensures
            r == self@[i as int],
    {
        self.buttons[i]
    }

    /// Handles the widget layer's actions: on the first click that names a
    /// button of this group, every other button of the group is deselected
    /// and the clicked button's index is returned.
    pub fn selected(&mut self, actions: &Vec<WidgetAction>) -> (r: Option<usize>)
        ensures
            r is Some ==> {
                &&& selected_index(old(self)@, actions@) == Some(r->Some_0 as int)
                &&& r->Some_0 < old(self)@.len()
                &&& final(self)@.len() == old(self)@.len()
                &&& forall|i: int|
                    0 <= i < final(self)@.len() && i != r->Some_0 as int ==> {
                        &&& !(#[trigger] final(self)@[i]).selected
                        &&& final(self)@[i].widget_uid == old(self)@[i].widget_uid
                    }
                &&& final(self)@[r->Some_0 as int] == old(self)@[r->Some_0 as int]
            },
            r is None ==> {
                &&& selected_index(old(self)@, actions@) is None
                &&& *final(self) == *old(self)
            },
    {
        let ghost pre = self@;
        let mut a: usize = 0;
        proof {
            assert(actions@.skip(0) =~= actions@);
        }
        while a < actions.len()
            invariant
                a <= actions@.len(),
                *self == *old(self),
                pre == old(self)@,
                selected_index(pre, actions@) == selected_index(
                    pre,
                    actions@.skip(a as int),
                ),
            decreases actions@.len() - a,
        {
            proof {
                assert(actions@.skip(a as int)[0] == actions@[a as int]);
                assert(actions@.skip(a as int).drop_first() =~= actions@.skip(a as int + 1));
            }
            let action = actions[a];
            if action.action == RadioButtonAction::Clicked {
                let mut i: usize = 0;
                while i < self.buttons.len()
                    invariant
                        i <= self.buttons@.len(),
                        *self == *old(self),
                        pre == old(self)@,
                        a < actions@.len(),
                        action == actions@[a as int],
                        action.action == RadioButtonAction::Clicked,
                        selected_index(pre, actions@) == selected_index(
                            pre,
                            actions@.skip(a as int),
                        ),
                        actions@.skip(a as int)[0] == action,
                        forall|j: int|
                            0 <= j < i ==> (#[trigger] pre[j]).widget_uid != action.widget_uid,
                    decreases self.buttons@.len() - i,
                {
                    if self.buttons[i].widget_uid == action.widget_uid {
                        proof {
                            assert(pre[i as int].widget_uid == action.widget_uid);
                            lemma_first_uid_found(pre, action.widget_uid, i as int);
                            assert(clicked_index(pre, action) == Some(i as int));
                            assert(selected_index(pre, actions@.skip(a as int)) == Some(
                                i as int,
                            ));
                        }
                        let mut k: usize = 0;
                        while k < self.buttons.len()
                            invariant
                                k <= self.buttons@.len(),
                                i < self.buttons@.len(),
                                pre == old(self)@,
                                self@.len() == pre.len(),
                                self@[i as int] == pre[i as int],
                                selected_index(pre, actions@) == Some(i as int),
                                forall|j: int|
                                    0 <= j < k && j != i as int ==> !(#[trigger] self@[
                                        j
                                    ]).selected && self@[j].widget_uid == pre[j].widget_uid,
                                forall|j: int|
                                    k <= j < self@.len() ==> #[trigger] self@[j] == pre[j],
                            decreases self.buttons@.len() - k,
                        {
                            if k != i {
                                let ghost prev = self.buttons@;
                                let unselected = RadioButtonRef {
                                    widget_uid: self.buttons[k].widget_uid,
                                    selected: false,
                                };
                                self.buttons.set(k, unselected);
                                proof {
                                    assert(forall|j: int|
                                        0 <= j < prev.len() && j != k as int
                                            ==> #[trigger] self.buttons@[j] == prev[j]);
                                }
                            }
                            k = k + 1;
                        }
                        proof {
                            assert(selected_index(pre, actions@) == Some(i as int));
                            assert(self@.len() == pre.len());
                            assert(self@[i as int] == pre[i as int]);
                            assert(forall|j: int|
                                0 <= j < self@.len() && j != i as int ==> !(#[trigger] self@[
                                    j
                                ]).selected && self@[j].widget_uid == pre[j].widget_uid);
                        }
                        return Some(i);
                    }
                    i = i + 1;
                }
                proof {
                    lemma_first_uid_missing(pre, action.widget_uid);
                    assert(clicked_index(pre, action) is None);
                }
            } else {
                proof {
                    assert(clicked_index(pre, action) is None);
                }
            }
            a = a + 1;
        }
        proof {
            assert(actions@.skip(a as int) =~= Seq::<WidgetAction>::empty());
        }
        None
    }

    /// Handles the widget layer's actions and, when a button of this group
    /// was clicked, reports which page becomes visible: exactly the one at
    /// the clicked index.
    pub fn selected_to_visible(&mut self, actions: &Vec<WidgetAction>) -> (r: Option<Vec<bool>>)
        ensures
            r is Some ==> {
                let picked = selected_index(old(self)@, actions@)->Some_0;
                &&& selected_index(old(self)@, actions@) is Some
                &&& r->Some_0@.len() == old(self)@.len()
                &&& forall|i: int|
                    0 <= i < r->Some_0@.len() ==> (#[trigger] r->Some_0@[i]) == (i == picked)
                &&& final(self)@.len() == old(self)@.len()
                &&& forall|i: int|
                    0 <= i < final(self)@.len() && i != picked ==> {
                        &&& !(#[trigger] final(self)@[i]).selected
                        &&& final(self)@[i].widget_uid == old(self)@[i].widget_uid
                    }
                &&& final(self)@[picked] == old(self)@[picked]
            },
            r is None ==> selected_index(old(self)@, actions@) is None && *final(self) == *old(
                self,
            ),
    {
        let ghost pre = self@;
        let picked = self.selected(actions);
        match picked {
            Option::None => None,
            Some(index) => {
                let mut visible: Vec<bool> = Vec::new();
                let mut i: usize = 0;
                let total = self.buttons.len();
                while i < total
                    invariant
                        i <= total,
                        total == pre.len(),
                        visible@.len() == i,
                        forall|j: int|
                            0 <= j < i ==> (#[trigger] visible@[j]) == (j == index as int),
                    decreases total - i,
                {
                    visible.push(i == index);
                    i = i + 1;
                }
                Some(visible)
            },
        }
    }
}

} // verus!
