//! S-expressions that cannot be unbalanced.
//!
//! The parentheses are not written by whoever builds a document: they come
//! from rendering a [`Sexp::List`], so an unbalanced document is not a bug to
//! be caught but a state that cannot be represented. [`lemma_rendering_balanced`]
//! states it: whenever no atom holds a parenthesis, the rendering is balanced.
use vstd::prelude::*;

use crate::text::push_char;
use vstd::string::StringExecFns;

verus! {

/// An S-expression: either a token, or a parenthesised sequence.
#[derive(Debug)]
pub enum Sexp {
    /// Rendered verbatim. Numerals, symbols, keywords.
    Atom(String),
    /// Rendered space-separated inside parentheses.
    List(Vec<Sexp>),
}

/// The model of an S-expression.
pub ghost enum SexpModel {
    Atom(Seq<char>),
    List(Seq<SexpModel>),
}

/// The model of `s`.
pub open spec fn sexp_model(s: Sexp) -> SexpModel
    decreases s,
{
    match s {
        Sexp::Atom(text) => SexpModel::Atom(text@),
        Sexp::List(items) => SexpModel::List(
            Seq::new(
                items@.len(),
                |i: int|
                    if 0 <= i < items@.len() {
                        sexp_model(items@[i])
                    } else {
                        arbitrary()
                    },
            ),
        ),
    }
}

impl View for Sexp {
    type V = SexpModel;

    open spec fn view(&self) -> SexpModel {
        sexp_model(*self)
    }
}

/// The text of `s`: an atom verbatim, a list as its items' texts separated by
/// single spaces inside one pair of parentheses.
pub open spec fn rendered(s: SexpModel) -> Seq<char>
    decreases s,
{
    match s {
        SexpModel::Atom(text) => text,
        SexpModel::List(items) => seq!['('] + joined(items) + seq![')'],
    }
}

/// The texts of `items` separated by single spaces.
pub open spec fn joined(items: Seq<SexpModel>) -> Seq<char>
    decreases items,
{
    if items.len() == 0 {
        Seq::empty()
    } else if items.len() == 1 {
        rendered(items[0])
    } else {
        joined(items.drop_last()) + seq![' '] + rendered(items.last())
    }
}

/// Opening minus closing parentheses in `s`.
pub open spec fn depth(s: Seq<char>) -> int
    decreases s.len(),
{
    if s.len() == 0 {
        0
    } else {
        depth(s.drop_last()) + if s.last() == '(' {
            1int
        } else if s.last() == ')' {
            -1int
        } else {
            0int
        }
    }
}

/// No prefix of `s` closes more parentheses than it opens, and `s` closes
/// every one it opens.
pub open spec fn balanced(s: Seq<char>) -> bool {
    &&& forall|k: int| 0 <= k <= s.len() ==> depth(#[trigger] s.take(k)) >= 0
    &&& depth(s) == 0
}

/// No parenthesis in any atom of `s`.
pub open spec fn atoms_paren_free(s: SexpModel) -> bool
    decreases s,
{
    match s {
        SexpModel::Atom(text) => forall|i: int| 0 <= i < text.len() ==> text[i] != '(' && text[i] != ')',
        SexpModel::List(items) => forall|i: int| 0 <= i < items.len() ==> atoms_paren_free(#[trigger] items[i]),
    }
}

proof fn lemma_depth_concat(a: Seq<char>, b: Seq<char>)
    ensures
        depth(a + b) == depth(a) + depth(b),
    decreases b.len(),
{
    if b.len() == 0 {
        assert(a + b =~= a);
    } else {
        lemma_depth_concat(a, b.drop_last());
        assert((a + b).drop_last() =~= a + b.drop_last());
    }
}

proof fn lemma_paren_free_depth(s: Seq<char>)
    requires
        forall|i: int| 0 <= i < s.len() ==> s[i] != '(' && s[i] != ')',
    ensures
        balanced(s),
    decreases s.len(),
{
    assert forall|k: int| 0 <= k <= s.len() implies depth(#[trigger] s.take(k)) == 0 by {
        lemma_paren_free_zero(s.take(k));
    }
    lemma_paren_free_zero(s);
}

proof fn lemma_paren_free_zero(s: Seq<char>)
    requires
        forall|i: int| 0 <= i < s.len() ==> s[i] != '(' && s[i] != ')',
    ensures
        depth(s) == 0,
    decreases s.len(),
{
    if s.len() > 0 {
        lemma_paren_free_zero(s.drop_last());
    }
}

/// Balanced texts put side by side are balanced.
proof fn lemma_balanced_concat(a: Seq<char>, b: Seq<char>)
    requires
        balanced(a),
        balanced(b),
    ensures
        balanced(a + b),
{
    lemma_depth_concat(a, b);
    assert forall|k: int| 0 <= k <= (a + b).len() implies depth(#[trigger] (a + b).take(k)) >= 0 by {
        if k <= a.len() {
            assert((a + b).take(k) =~= a.take(k));
        } else {
            assert((a + b).take(k) =~= a + b.take(k - a.len()));
            lemma_depth_concat(a, b.take(k - a.len()));
            assert(a.take(a.len() as int) =~= a);
        }
    }
}

/// A balanced text in parentheses is balanced.
proof fn lemma_balanced_wrap(s: Seq<char>)
    requires
        balanced(s),
    ensures
        balanced(seq!['('] + s + seq![')']),
{
    let open = seq!['('];
    let close = seq![')'];
    let w = open + s + close;
    lemma_depth_concat(open, s);
    lemma_depth_concat(open + s, close);
    assert(depth(open) == 1) by {
        assert(open.drop_last() =~= Seq::<char>::empty());
        assert(depth(open.drop_last()) == 0);
        assert(open.last() == '(');
    }
    assert(depth(close) == -1) by {
        assert(close.drop_last() =~= Seq::<char>::empty());
        assert(depth(close.drop_last()) == 0);
        assert(close.last() == ')');
    }
    assert forall|k: int| 0 <= k <= w.len() implies depth(#[trigger] w.take(k)) >= 0 by {
        if k == 0 {
            assert(w.take(k) =~= Seq::<char>::empty());
        } else if k <= s.len() + 1 {
            assert(w.take(k) =~= open + s.take(k - 1));
            lemma_depth_concat(open, s.take(k - 1));
        } else {
            assert(w.take(k) =~= w);
        }
    }
}

/// Whenever no atom holds a parenthesis, the rendering is balanced: the
/// parentheses come from the structure, one pair per list.
pub proof fn lemma_rendering_balanced(s: SexpModel)
    requires
        atoms_paren_free(s),
    ensures
        balanced(rendered(s)),
    decreases s,
{
    match s {
        SexpModel::Atom(text) => lemma_paren_free_depth(text),
        SexpModel::List(items) => {
            lemma_joined_balanced(items);
            lemma_balanced_wrap(joined(items));
        },
    }
}

proof fn lemma_joined_balanced(items: Seq<SexpModel>)
    requires
        forall|i: int| 0 <= i < items.len() ==> atoms_paren_free(#[trigger] items[i]),
    ensures
        balanced(joined(items)),
    decreases items,
{
    if items.len() == 0 {
        assert(joined(items) =~= Seq::<char>::empty());
        assert(Seq::<char>::empty().take(0) =~= Seq::<char>::empty());
    } else if items.len() == 1 {
        lemma_rendering_balanced(items[0]);
    } else {
        let rest = items.drop_last();
        assert forall|i: int| 0 <= i < rest.len() implies atoms_paren_free(#[trigger] rest[i]) by {
            assert(rest[i] == items[i]);
        }
        lemma_joined_balanced(rest);
        lemma_rendering_balanced(items.last());
        lemma_paren_free_depth(seq![' ']);
        lemma_balanced_concat(joined(rest), seq![' ']);
        lemma_balanced_concat(joined(rest) + seq![' '], rendered(items.last()));
    }
}

impl Sexp {
    /// An atom, rendered verbatim.
    pub fn atom(text: &str) -> (s: Sexp)
        ensures
            s@ == SexpModel::Atom(text@),
    {
        Sexp::Atom(text.to_string())
    }

    /// An SMT-LIB quoted symbol: the name between two bars. Babel names may be
    /// any Unicode; a quoted symbol takes anything but `|` and `\`, neither of
    /// which a babel name can hold.
    pub fn symbol(name: &str) -> (s: Sexp)
        ensures
            s@ == SexpModel::Atom(seq!['|'] + name@ + seq!['|']),
    {
        let mut text = String::new();
        push_char(&mut text, '|');
        text.append(name);
        push_char(&mut text, '|');
        proof {
            assert(text@ =~= seq!['|'] + name@ + seq!['|']);
        }
        Sexp::Atom(text)
    }

    /// A list of `items`.
    pub fn list(items: Vec<Sexp>) -> (s: Sexp)
        ensures
            s@ == SexpModel::List(Seq::new(items@.len(), |i: int| items@[i]@)),
    {
        let s = Sexp::List(items);
        proof {
            assert(s@->List_0 =~= Seq::new(items@.len(), |i: int| items@[i]@));
        }
        s
    }

    /// `(head argument ...)`: the shape almost everything in SMT-LIB takes.
    pub fn call(head: &str, arguments: Vec<Sexp>) -> (s: Sexp)
        ensures
            s@ == SexpModel::List(
                seq![SexpModel::Atom(head@)] + Seq::new(arguments@.len(), |i: int| arguments@[i]@),
            ),
    {
        let ghost args = arguments@;
        let mut items: Vec<Sexp> = Vec::new();
        items.push(Sexp::atom(head));
        let mut arguments = arguments;
        let mut rest: Vec<Sexp> = Vec::new();
        // Move the arguments over, last first, then back in order.
        while arguments.len() > 0
            invariant
                arguments@ == args.take(arguments@.len() as int),
                rest@.len() + arguments@.len() == args.len(),
                forall|j: int| 0 <= j < rest@.len() ==> (#[trigger] rest@[j])@ == args[args.len() - 1 - j]@,
            decreases arguments@.len(),
        {
            let last = arguments.pop().unwrap();
            proof {
                assert(args.take(arguments@.len() as int) =~= args.take(arguments@.len() as int + 1).drop_last());
            }
            rest.push(last);
        }
        while rest.len() > 0
            invariant
                rest@.len() <= args.len(),
                items@.len() == 1 + args.len() - rest@.len(),
                items@[0]@ == SexpModel::Atom(head@),
                forall|j: int| 0 <= j < rest@.len() ==> (#[trigger] rest@[j])@ == args[args.len() - 1 - j]@,
                forall|j: int| 1 <= j < items@.len() ==> (#[trigger] items@[j])@ == args[j - 1]@,
            decreases rest@.len(),
        {
            let next = rest.pop().unwrap();
            items.push(next);
        }
        let s = Sexp::List(items);
        proof {
            assert(s@->List_0 =~= seq![SexpModel::Atom(head@)] + Seq::new(args.len(), |i: int| args[i]@));
        }
        s
    }

    /// The text of the expression; see [`rendered`].
    pub fn render(&self) -> (text: String)
        ensures
            text@ == rendered(self@),
    {
        let mut out = String::new();
        self.render_into(&mut out);
        proof {
            assert(out@ =~= rendered(self@));
        }
        out
    }

    /// A deep copy.
    pub fn duplicate(&self) -> (c: Sexp)
        ensures
            c@ == self@,
        decreases self,
    {
        match self {
            Sexp::Atom(text) => Sexp::Atom(text.clone()),
            Sexp::List(items) => {
                let ghost models = self@->List_0;
                let mut out: Vec<Sexp> = Vec::new();
                let mut i: usize = 0;
                while i < items.len()
                    invariant
                        *self == Sexp::List(*items),
                        models == self@->List_0,
                        i <= items@.len(),
                        out@.len() == i,
                        forall|j: int| 0 <= j < i ==> (#[trigger] out@[j])@ == items@[j]@,
                    decreases items@.len() - i,
                {
                    assert(decreases_to!(*self => items@[i as int]));
                    out.push(items[i].duplicate());
                    i += 1;
                }
                let c = Sexp::List(out);
                proof {
                    assert(c@->List_0 =~= self@->List_0);
                }
                c
            },
        }
    }

    fn render_into(&self, out: &mut String)
        ensures
            final(out)@ == old(out)@ + rendered(self@),
        decreases self,
    {
        match self {
            Sexp::Atom(text) => {
                out.append(text.as_str());
            },
            Sexp::List(items) => {
                let ghost start = out@;
                let ghost models = self@->List_0;
                push_char(out, '(');
                let mut i: usize = 0;
                while i < items.len()
                    invariant
                        *self == Sexp::List(*items),
                        models == self@->List_0,
                        i <= items@.len(),
                        out@ == start + seq!['('] + joined(models.take(i as int)),
                    decreases items@.len() - i,
                {
                    if i > 0 {
                        push_char(out, ' ');
                    }
                    assert(decreases_to!(*self => items@[i as int]));
                    items[i].render_into(out);
                    proof {
                        assert(models[i as int] == items@[i as int]@);
                        let taken = models.take(i + 1);
                        assert(taken.drop_last() =~= models.take(i as int));
                        if i == 0 {
                            assert(joined(taken) == rendered(taken[0]));
                            assert(models.take(0) =~= Seq::<SexpModel>::empty());
                        }
                        assert(out@ =~= start + seq!['('] + joined(taken));
                    }
                    i += 1;
                }
                push_char(out, ')');
                proof {
                    assert(models.take(items@.len() as int) =~= models);
                    assert(out@ =~= start + rendered(self@));
                }
            },
        }
    }
}

} // verus!
