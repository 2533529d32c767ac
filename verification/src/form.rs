//! Form wrapper: per-field validation errors, the blurred latch that gates
//! their display, and the controls the fields register with their form.

use vstd::prelude::*;

verus! {

/// State one field registers with its enclosing form: the id of the blurred
/// latch, the id of the wrapped widget, and the field's error messages.
pub struct FieldState {
    /// Id of the field's persistent blurred latch.
    pub state_id: u64,
    /// Id of the wrapped widget, used to focus it on failed validation.
    pub widget_id: u64,
    /// Error messages for this field; empty when the field is valid.
    pub errors: Vec<String>,
}

/// A form: the validation errors currently known, keyed by field id, and the
/// controls registered by the fields shown so far this frame.
pub struct Form {
    /// Validation errors, field id to message; earlier entries win.
    pub validation_errors: Vec<(u64, String)>,
    /// Controls registered this frame, in display order.
    pub controls: Vec<FieldState>,
}

/// The first error message registered for `field`, if any.
pub open spec fn first_error(errs: Seq<(u64, String)>, field: u64) -> Option<String>
    decreases errs.len(),
{
    if errs.len() == 0 {
        None
    } else if errs[0].0 == field {
        Some(errs[0].1)
    } else {
        first_error(errs.subrange(1, errs.len() as int), field)
    }
}

impl Form {
    /// An empty form: no known errors, no registered controls.
    pub fn new() -> (r: Form)
        ensures
            r.validation_errors@.len() == 0,
            r.controls@.len() == 0,
    {
        Form { validation_errors: Vec::new(), controls: Vec::new() }
    }

    /// Record a validation error for a field.
    pub fn add_error(&mut self, field: u64, message: String)
        ensures
            final(self).validation_errors@ == old(self).validation_errors@.push((field, message)),
            final(self).controls@ == old(self).controls@,
    {
        self.validation_errors.push((field, message));
    }

    /// Register a field's control with the form, in display order.
    pub fn register(&mut self, control: FieldState)
        ensures
            final(self).controls@ == old(self).controls@.push(control),
            final(self).validation_errors@ == old(self).validation_errors@,
    {
        self.controls.push(control);
    }

    /// The first registered control that carries an error, the one a failed
    /// validation focuses; `None` when every control is error free.
    pub fn first_errored(&self) -> (r: Option<usize>)
        ensures
            match r {
                Some(i) => 0 <= i < self.controls@.len() && self.controls@[i as int].errors@.len()
                    > 0 && forall|j: int|
                    0 <= j < i ==> (#[trigger] self.controls@[j]).errors@.len() == 0,
                None => forall|j: int|
                    0 <= j < self.controls@.len() ==> (#[trigger] self.controls@[j]).errors@.len()
                        == 0,
            },
    {
        let n = self.controls.len();
        let mut i: usize = 0;
        while i < n
            invariant
                i <= n,
                n == self.controls@.len(),
                forall|j: int| 0 <= j < i ==> (#[trigger] self.controls@[j]).errors@.len() == 0,
            decreases n - i,
        {
            if self.controls[i].errors.len() > 0 {
                return Some(i);
            }
            i = i + 1;
        }
        None
    }
}

/// A field wrapper: the field's first validation error, an optional label,
/// and the field id it was looked up under.
pub struct FormField {
    /// The first validation error registered for this field, if any.
    pub error: Option<String>,
    /// Label drawn above the wrapped widget.
    pub label: Option<String>,
    /// The field id this wrapper was created for.
    pub field: u64,
}

impl FormField {
    /// Wrap the field named `field`: looks up the first validation error the
    /// form holds for it.
    pub fn new(form: &Form, field: u64) -> (r: FormField)
        ensures
            r.error == first_error(form.validation_errors@, field),
            r.label is None,
            r.field == field,
    {
        let n = form.validation_errors.len();
        proof {
            assert(form.validation_errors@.subrange(0, n as int) =~= form.validation_errors@);
        }
        let mut i: usize = 0;
        while i < n
            invariant
                i <= n,
                n == form.validation_errors@.len(),
                first_error(form.validation_errors@, field) == first_error(
                    form.validation_errors@.subrange(i as int, n as int),
                    field,
                ),
            decreases n - i,
        {
            let ghost pre = form.validation_errors@.subrange(i as int, n as int);
            if form.validation_errors[i].0 == field {
                let msg = form.validation_errors[i].1.clone();
                return FormField { error: Some(msg), label: None, field };
            }
            proof {
                assert(pre.subrange(1, pre.len() as int) =~= form.validation_errors@.subrange(
                    i as int + 1,
                    n as int,
                ));
            }
            i = i + 1;
        }
        proof {
            assert(form.validation_errors@.subrange(n as int, n as int) =~= Seq::<(
                u64,
                String,
            )>::empty());
        }
        FormField { error: None, label: None, field }
    }

    /// Attach a label to draw above the wrapped widget.
    pub fn label(self, label: String) -> (r: FormField)
        ensures
            r.label == Some(label),
            r.error == self.error,
            r.field == self.field,
    {
        FormField { label: Some(label), ..self }
    }

    /// Whether the field shows its error: only once it has been blurred and
    /// an error is present.
    pub fn visibly_errored(&self, blurred: bool) -> (r: bool)
        ensures
            r == (blurred && self.error is Some),
    {
        blurred && self.error.is_some()
    }
}

/// The blurred latch after a frame: it flips to true the first time the
/// widget loses focus and never flips back.
pub fn latch_blurred(blurred: bool, lost_focus: bool) -> (r: bool)
    ensures
        r == (blurred || lost_focus),
{
    blurred || lost_focus
}

} // verus!
