use vstd::prelude::*;
use vstd::string::*;

verus! {

/// A display colour, as its red, green and blue parts.
#[derive(Clone, Copy, Debug, PartialEq, Eq, Structural)]
pub struct Colour {
    pub r: u8,
    pub g: u8,
    pub b: u8,
}

/// A named group of events with the colour in which they are shown.
/// A category is known by its name alone, compared letter for letter.
#[derive(Clone, Debug, PartialEq, Eq)]
pub struct Category {
    pub name: String,
    pub colour: Colour,
}

/// What a [`Category`] holds, as plain values.
pub struct CategoryModel {
    pub name: Seq<char>,
    pub colour: Colour,
}

impl View for Category {
    type V = CategoryModel;

    open spec fn view(&self) -> CategoryModel {
        CategoryModel { name: self.name@, colour: self.colour }
    }
}

/// The models of a run of categories, in order.
pub open spec fn models_of(categories: Seq<Category>) -> Seq<CategoryModel> {
    categories.map_values(|c: Category| c@)
}

/// The name of the category of events that name none.
pub open spec fn none_name() -> Seq<char> {
    "None"@
}

/// The light gray of the `None` category where the input does not declare
/// it.
pub open spec fn none_colour() -> Colour {
    Colour { r: 200, g: 200, b: 200 }
}

/// The dark gray of a category that an event names and nothing declares.
pub open spec fn unspecified_colour() -> Colour {
    Colour { r: 50, g: 50, b: 50 }
}

/// The first place in `categories` at which `name` stands, if any.
pub open spec fn position_of(categories: Seq<CategoryModel>, name: Seq<char>) -> Option<int>
    decreases categories.len(),
{
    if categories.len() == 0 {
        None
    } else {
        match position_of(categories.drop_last(), name) {
            Some(i) => Some(i),
            None => if categories.last().name == name {
                Some(categories.len() - 1)
            } else {
                None
            },
        }
    }
}

/// No two of `categories` share a name.
pub open spec fn distinct_names(categories: Seq<CategoryModel>) -> bool {
    forall|i: int, j: int|
        0 <= i < j < categories.len() ==> (#[trigger] categories[i]).name
            != (#[trigger] categories[j]).name
}

/// What holds of every registry: no two categories share a name, and the
/// `None` category is there.
pub open spec fn well_formed(categories: Seq<CategoryModel>) -> bool {
    &&& distinct_names(categories)
    &&& position_of(categories, none_name()) is Some
}

/// `categories` after `name` was declared with `colour`: a known name
/// keeps its place and takes the new colour, a new name goes to the end.
pub open spec fn declared(categories: Seq<CategoryModel>, name: Seq<char>, colour: Colour) -> Seq<
    CategoryModel,
> {
    match position_of(categories, name) {
        Some(i) => categories.update(i, CategoryModel { name, colour }),
        None => categories.push(CategoryModel { name, colour }),
    }
}

/// `categories` after each of `declarations` was declared in turn.
pub open spec fn declared_all(
    categories: Seq<CategoryModel>,
    declarations: Seq<CategoryModel>,
) -> Seq<CategoryModel>
    decreases declarations.len(),
{
    if declarations.len() == 0 {
        categories
    } else {
        let last = declarations.last();
        declared(declared_all(categories, declarations.drop_last()), last.name, last.colour)
    }
}

/// The registry that a run of declarations gives. Where none of them
/// declares `None`, that category comes first, in light gray, so that its
/// id is 0; the declared ones follow in the order in which their names
/// were first seen.
pub open spec fn registry_of(declarations: Seq<CategoryModel>) -> Seq<CategoryModel> {
    if position_of(declarations, none_name()) is Some {
        declared_all(Seq::empty(), declarations)
    } else {
        declared_all(
            seq![CategoryModel { name: none_name(), colour: none_colour() }],
            declarations,
        )
    }
}

/// The registry after resolving `name`, and the id that the name resolves
/// to. No name resolves to `None`; a known name to its place; an unknown
/// name is registered at the end, in dark gray.
pub open spec fn resolved(categories: Seq<CategoryModel>, name: Option<Seq<char>>) -> (
    Seq<CategoryModel>,
    int,
) {
    let wanted = match name {
        Some(n) => n,
        None => none_name(),
    };
    match position_of(categories, wanted) {
        Some(i) => (categories, i),
        None => (
            categories.push(CategoryModel { name: wanted, colour: unspecified_colour() }),
            categories.len() as int,
        ),
    }
}

/// What [`position_of`] finds: the first place that holds the name, or
/// nothing where no place holds it.
pub proof fn lemma_position_of(categories: Seq<CategoryModel>, name: Seq<char>)
    ensures
        match position_of(categories, name) {
            Some(i) => {
                &&& 0 <= i < categories.len()
                &&& categories[i].name == name
                &&& forall|j: int| 0 <= j < i ==> (#[trigger] categories[j]).name != name
            },
            None => forall|j: int|
                0 <= j < categories.len() ==> (#[trigger] categories[j]).name != name,
        },
    decreases categories.len(),
{
    if categories.len() > 0 {
        let front = categories.drop_last();
        lemma_position_of(front, name);
        assert forall|j: int| 0 <= j < front.len() implies (#[trigger] categories[j])
            == front[j] by {}
        if position_of(front, name) is None {
            assert forall|j: int| 0 <= j < front.len() implies (#[trigger] categories[j]).name
                != name by {
                assert(front[j].name != name);
            }
        }
    }
}

/// Where a name stands depends on the names alone.
proof fn lemma_position_by_names(a: Seq<CategoryModel>, b: Seq<CategoryModel>, name: Seq<char>)
    requires
        a.len() == b.len(),
        forall|i: int| 0 <= i < a.len() ==> (#[trigger] a[i]).name == b[i].name,
    ensures
        position_of(a, name) == position_of(b, name),
    decreases a.len(),
{
    if a.len() > 0 {
        assert(a.last().name == b.last().name);
        assert forall|i: int| 0 <= i < a.len() - 1 implies (#[trigger] a.drop_last()[i]).name
            == b.drop_last()[i].name by {
            assert(a[i].name == b[i].name);
        }
        lemma_position_by_names(a.drop_last(), b.drop_last(), name);
    }
}

/// A declaration keeps a registry's names distinct, moves no name that
/// was known, and makes its own name known.
pub proof fn lemma_declared(
    categories: Seq<CategoryModel>,
    name: Seq<char>,
    colour: Colour,
    other: Seq<char>,
)
    requires
        distinct_names(categories),
    ensures
        distinct_names(declared(categories, name, colour)),
        position_of(declared(categories, name, colour), name) is Some,
        position_of(categories, other) is Some ==> position_of(
            declared(categories, name, colour),
            other,
        ) == position_of(categories, other),
{
    let after = declared(categories, name, colour);
    lemma_position_of(categories, name);
    match position_of(categories, name) {
        Some(i) => {
            assert forall|k: int| 0 <= k < categories.len() implies (#[trigger] categories[k]).name
                == after[k].name by {}
            lemma_position_by_names(categories, after, name);
            lemma_position_by_names(categories, after, other);
            assert forall|k: int, l: int| 0 <= k < l < after.len() implies (#[trigger] after[k])
                .name != (#[trigger] after[l]).name by {
                assert(categories[k].name != categories[l].name);
            }
        },
        None => {
            assert(after.drop_last() =~= categories);
            assert forall|k: int, l: int| 0 <= k < l < after.len() implies (#[trigger] after[k])
                .name != (#[trigger] after[l]).name by {
                if l < categories.len() {
                    assert(categories[k].name != categories[l].name);
                } else {
                    assert(categories[k].name != name);
                }
            }
        },
    }
}

/// A run of declarations keeps a registry's names distinct and moves no
/// name that was known; each declared name is known afterwards.
pub proof fn lemma_declared_all(
    categories: Seq<CategoryModel>,
    declarations: Seq<CategoryModel>,
    other: Seq<char>,
)
    requires
        distinct_names(categories),
    ensures
        distinct_names(declared_all(categories, declarations)),
        position_of(categories, other) is Some ==> position_of(
            declared_all(categories, declarations),
            other,
        ) == position_of(categories, other),
        position_of(declarations, other) is Some ==> position_of(
            declared_all(categories, declarations),
            other,
        ) is Some,
    decreases declarations.len(),
{
    if declarations.len() > 0 {
        let last = declarations.last();
        let before = declared_all(categories, declarations.drop_last());
        lemma_declared_all(categories, declarations.drop_last(), other);
        lemma_declared(before, last.name, last.colour, other);
    }
}

/// The registry that a run of declarations gives is well formed.
pub proof fn lemma_registry_of_well_formed(declarations: Seq<CategoryModel>)
    ensures
        well_formed(registry_of(declarations)),
{
    if position_of(declarations, none_name()) is Some {
        lemma_declared_all(Seq::empty(), declarations, none_name());
    } else {
        let first = seq![CategoryModel { name: none_name(), colour: none_colour() }];
        assert(first.drop_last() =~= Seq::<CategoryModel>::empty());
        assert(position_of(first.drop_last(), none_name()) is None);
        assert(position_of(first, none_name()) == Some(0int));
        lemma_declared_all(first, declarations, none_name());
    }
}

/// Resolving keeps a registry well formed, and moves no name that was
/// known.
pub proof fn lemma_resolved(
    categories: Seq<CategoryModel>,
    name: Option<Seq<char>>,
    other: Seq<char>,
)
    requires
        well_formed(categories),
    ensures
        well_formed(resolved(categories, name).0),
        0 <= resolved(categories, name).1 < resolved(categories, name).0.len(),
        position_of(categories, other) is Some ==> position_of(
            resolved(categories, name).0,
            other,
        ) == position_of(categories, other),
{
    let wanted = match name {
        Some(n) => n,
        None => none_name(),
    };
    let after = resolved(categories, name).0;
    lemma_position_of(categories, wanted);
    if position_of(categories, wanted) is None {
        assert(after.drop_last() =~= categories);
        assert forall|k: int, l: int| 0 <= k < l < after.len() implies (#[trigger] after[k]).name
            != (#[trigger] after[l]).name by {
            if l < categories.len() {
                assert(categories[k].name != categories[l].name);
            } else {
                assert(categories[k].name != wanted);
            }
        }
    }
}

/// Resolving a name gives the id under which the name is known from then
/// on: resolving it once more gives the same id, and changes nothing.
/// This holds of a name that was not known before as of one that was.
pub proof fn lemma_resolve_again(categories: Seq<CategoryModel>, name: Seq<char>)
    ensures
        ({
            let (after, id) = resolved(categories, Some(name));
            resolved(after, Some(name)) == (after, id)
        }),
{
    let (after, id) = resolved(categories, Some(name));
    if position_of(categories, name) is None {
        assert(after.drop_last() =~= categories);
    }
}

/// An event without a category resolves to `None`: to the place at which
/// `None` stands, with the registry left as it is. That place is the same
/// whatever was resolved before.
pub proof fn lemma_resolve_absent(categories: Seq<CategoryModel>, earlier: Option<Seq<char>>)
    requires
        well_formed(categories),
    ensures
        resolved(categories, None) == (categories, position_of(categories, none_name())->0),
        categories[resolved(categories, None).1].name == none_name(),
        resolved(resolved(categories, earlier).0, None).1 == resolved(categories, None).1,
{
    lemma_position_of(categories, none_name());
    lemma_resolved(categories, earlier, none_name());
}

/// The place of the category called `name`, if there is one.
fn find_in(categories: &Vec<Category>, name: &String) -> (found: Option<usize>)
    ensures
        match found {
            Some(i) => position_of(models_of(categories@), name@) == Some(i as int),
            None => position_of(models_of(categories@), name@) is None,
        },
        found matches Some(i) ==> i < categories.len(),
{
    let ghost models = models_of(categories@);
    let mut i: usize = 0;
    while i < categories.len()
        invariant
            i <= categories.len(),
            models == models_of(categories@),
            forall|j: int| 0 <= j < i ==> (#[trigger] models[j]).name != name@,
        decreases categories.len() - i,
    {
        if categories[i].name == *name {
            proof {
                assert(models[i as int].name == name@);
                lemma_position_of(models, name@);
            }
            return Some(i);
        }
        assert(models[i as int].name != name@);
        i += 1;
    }
    proof {
        lemma_position_of(models, name@);
    }
    None
}

/// Declares `name` with `colour` among `categories`.
fn declare_in(categories: &mut Vec<Category>, name: String, colour: Colour)
    ensures
        models_of(final(categories)@) == declared(models_of(old(categories)@), name@, colour),
{
    match find_in(categories, &name) {
        Some(i) => {
            categories.set(i, Category { name, colour });
            assert(models_of(categories@) =~= declared(models_of(old(categories)@), name@, colour));
        },
        None => {
            categories.push(Category { name, colour });
            assert(models_of(categories@) =~= declared(models_of(old(categories)@), name@, colour));
        },
    }
}

/// The categories of a schedule while it is read: each is known by its
/// name and has its place, which is its id. A registry is made from the
/// declarations of a document, which makes it well formed, and stays so
/// while names are resolved: no two categories share a name, and `None`
/// is among them.
pub struct Registry {
    categories: Vec<Category>,
}

impl View for Registry {
    type V = Seq<CategoryModel>;

    closed spec fn view(&self) -> Seq<CategoryModel> {
        models_of(self.categories@)
    }
}

impl Registry {
    /// The registry of the categories that a document declares, as
    /// [`registry_of`] gives it. A name that is declared again keeps its
    /// place and takes the later colour. Where `None` is not declared, it
    /// comes first, with id 0, in light gray.
    pub fn from_declarations(declarations: &Vec<Category>) -> (registry: Registry)
        ensures
            registry@ == registry_of(models_of(declarations@)),
            well_formed(registry@),
    {
        let ghost wanted = models_of(declarations@);
        let none = String::from_str("None");
        let mut categories: Vec<Category> = Vec::new();
        if find_in(declarations, &none).is_none() {
            categories.push(Category { name: none, colour: Colour { r: 200, g: 200, b: 200 } });
        }
        let ghost first = models_of(categories@);
        assert(first =~= if position_of(wanted, none_name()) is Some {
            Seq::<CategoryModel>::empty()
        } else {
            seq![CategoryModel { name: none_name(), colour: none_colour() }]
        });
        let mut k: usize = 0;
        while k < declarations.len()
            invariant
                k <= declarations.len(),
                wanted == models_of(declarations@),
                models_of(categories@) == declared_all(first, wanted.take(k as int)),
            decreases declarations.len() - k,
        {
            let name = declarations[k].name.clone();
            declare_in(&mut categories, name, declarations[k].colour);
            proof {
                let upto = wanted.take(k + 1);
                assert(upto.drop_last() =~= wanted.take(k as int));
                assert(upto.last() == declarations[k as int]@);
            }
            k += 1;
        }
        proof {
            assert(wanted.take(k as int) =~= wanted);
            lemma_registry_of_well_formed(wanted);
        }
        Registry { categories }
    }

    /// The id of the category of an event that names `explicit_name`, as
    /// [`resolved`] gives it. Without a name that is the id of `None`. A
    /// name that is not known yet is registered, in dark gray, and gets
    /// the next id.
    pub fn resolve(&mut self, explicit_name: Option<&str>) -> (id: usize)
        ensures
            (final(self)@, id as int) == resolved(
                old(self)@,
                match explicit_name {
                    Some(n) => Some(n@),
                    None => None,
                },
            ),
            well_formed(old(self)@) ==> well_formed(final(self)@),
            id < final(self)@.len(),
    {
        proof {
            if well_formed(self@) {
                lemma_resolved(
                    self@,
                    match explicit_name {
                        Some(n) => Some(n@),
                        None => None,
                    },
                    none_name(),
                );
            }
        }
        let wanted = match explicit_name {
            Some(n) => String::from_str(n),
            None => String::from_str("None"),
        };
        match find_in(&self.categories, &wanted) {
            Some(i) => i,
            None => {
                let id = self.categories.len();
                let colour = Colour { r: 50, g: 50, b: 50 };
                self.categories.push(Category { name: wanted, colour });
                assert(models_of(self.categories@) =~= models_of(old(self).categories@).push(
                    CategoryModel { name: wanted@, colour: unspecified_colour() },
                ));
                id
            },
        }
    }

    /// The categories, each at the place of its id.
    pub fn into_categories(self) -> (categories: Vec<Category>)
        ensures
            models_of(categories@) == self@,
    {
        self.categories
    }
}

} // verus!
