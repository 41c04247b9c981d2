//! Digestion of raw registration rows into persons and deduplicated modules.

use vstd::prelude::*;
use crate::identity::Identity;
use crate::schedule::{ModuleStart, parse_start, start_of_title, year_in_range};
use crate::text::{split_at_separator, split_on, trim_text, trimmed};

verus! {

/// One decoded row of the registration export.
#[derive(Debug)]
pub struct RawRecord {
    pub identity: Identity,
    /// Module titles separated by `;`.
    pub choice_of_modules: String,
    /// Registration instant, in nanoseconds since the Unix epoch.
    pub registration_time: i128,
}

/// Index of a person within `Registrations::persons`.
pub type PersonId = usize;

/// Index of a module within `Registrations::modules`.
pub type ModuleId = usize;

/// Someone who registered to modules.
#[derive(Debug)]
pub struct Person {
    pub identity: Identity,
    /// The modules chosen, in the order in which they were listed.
    pub choice_of_modules: Vec<ModuleId>,
    /// Registration instant, in nanoseconds since the Unix epoch.
    pub registration_time: i128,
}

/// A module: its trimmed title and when it starts.
#[derive(Debug)]
pub struct Module {
    pub name: String,
    pub start_time: ModuleStart,
}

/// Persons and the modules they chose.
#[derive(Debug)]
pub struct Registrations {
    pub persons: Vec<Person>,
    pub modules: Vec<Module>,
}

/// The trimmed module titles that a row lists, in order.
pub open spec fn row_titles(row: RawRecord) -> Seq<Seq<char>> {
    split_on(row.choice_of_modules@, ';').map_values(|p: Seq<char>| trimmed(p))
}

/// The trimmed titles of all rows, row after row.
pub open spec fn all_titles(rows: Seq<RawRecord>) -> Seq<Seq<char>>
    decreases rows.len(),
{
    if rows.len() == 0 {
        Seq::empty()
    } else {
        all_titles(rows.drop_last()) + row_titles(rows.last())
    }
}

/// The distinct titles of `titles`, in order of first occurrence.
pub open spec fn first_seen(titles: Seq<Seq<char>>) -> Seq<Seq<char>>
    decreases titles.len(),
{
    if titles.len() == 0 {
        Seq::empty()
    } else {
        let prev = first_seen(titles.drop_last());
        if prev.contains(titles.last()) {
            prev
        } else {
            prev.push(titles.last())
        }
    }
}

pub proof fn lemma_first_seen(titles: Seq<Seq<char>>)
    ensures
        first_seen(titles).no_duplicates(),
        forall|t: Seq<char>| first_seen(titles).contains(t) <==> titles.contains(t),
    decreases titles.len(),
{
    if titles.len() > 0 {
        let init = titles.drop_last();
        lemma_first_seen(init);
        let prev = first_seen(init);
        if !prev.contains(titles.last()) {
            assert(first_seen(titles) == prev.push(titles.last()));
            assert forall|t: Seq<char>| prev.push(titles.last()).contains(t) && t != titles.last()
                implies prev.contains(t) by {
                let k = choose|k: int| 0 <= k < prev.len() + 1 && prev.push(titles.last())[k] == t;
                assert(prev[k] == t);
            }
            assert forall|t: Seq<char>| prev.contains(t) implies prev.push(titles.last()).contains(t) by {
                let k = choose|k: int| 0 <= k < prev.len() && prev[k] == t;
                assert(prev.push(titles.last())[k] == t);
            }
            assert(prev.push(titles.last())[prev.len() as int] == titles.last());
        }
        assert forall|t: Seq<char>| first_seen(titles).contains(t) <==> titles.contains(t) by {
            if titles.contains(t) && t != titles.last() {
                let k = choose|k: int| 0 <= k < titles.len() && titles[k] == t;
                assert(k < titles.len() - 1);
                assert(init[k] == t);
                assert(init.contains(t));
            }
            if first_seen(titles).contains(t) && t != titles.last() {
                assert(first_seen(init).contains(t));
                assert(init.contains(t));
                let k = choose|k: int| 0 <= k < init.len() && init[k] == t;
                assert(titles[k] == t);
            }
            if t == titles.last() {
                assert(titles[titles.len() - 1] == t);
            }
        }
    }
}

/// `choices` names, one for one, modules titled `titles`.
pub open spec fn chose_titles(choices: Seq<ModuleId>, titles: Seq<Seq<char>>, modules: Seq<Module>) -> bool {
    &&& choices.len() == titles.len()
    &&& forall|j: int| 0 <= j < choices.len()
        ==> #[trigger] choices[j] < modules.len() && modules[choices[j] as int].name@ == titles[j]
}

proof fn lemma_chose_titles_grow(
    choices: Seq<ModuleId>,
    titles: Seq<Seq<char>>,
    modules: Seq<Module>,
    m: Module,
)
    requires
        chose_titles(choices, titles, modules),
    ensures
        chose_titles(choices, titles, modules.push(m)),
{
    assert forall|j: int| 0 <= j < choices.len() implies #[trigger] choices[j] < modules.push(m).len()
        && modules.push(m)[choices[j] as int].name@ == titles[j] by {
        assert(modules.push(m)[choices[j] as int] == modules[choices[j] as int]);
    }
}

pub open spec fn module_names(modules: Seq<Module>) -> Seq<Seq<char>> {
    modules.map_values(|m: Module| m.name@)
}

impl Module {
    /// A module titled `module_name`, starting when its title says, in `year`.
    pub fn new(module_name: String, year: i32) -> (r: Module)
        requires
            year_in_range(year as int),
        ensures
            r.name@ == module_name@,
            r.start_time == start_of_title(module_name@, year),
            r.start_time.wf(),
    {
        let start_time = parse_start(module_name.as_str(), year);
        Module { name: module_name, start_time }
    }
}

/// Index of the module titled `title`, if there is one.
fn find_module(modules: &Vec<Module>, title: &String) -> (r: Option<ModuleId>)
    ensures
        r matches Some(k) ==> k < modules.len() && modules@[k as int].name@ == title@,
        r is None ==> !module_names(modules@).contains(title@),
{
    let mut k: usize = 0;
    while k < modules.len()
        invariant
            k <= modules.len(),
            forall|j: int| 0 <= j < k ==> modules@[j].name@ != title@,
        decreases modules.len() - k,
    {
        if modules[k].name == *title {
            return Some(k);
        }
        k = k + 1;
    }
    proof {
        if module_names(modules@).contains(title@) {
            let j = choose|j: int|
                0 <= j < module_names(modules@).len() && module_names(modules@)[j] == title@;
            assert(modules@[j].name@ == title@);
        }
    }
    None
}

impl Registrations {
    /// Well-formed: module titles are distinct, every chosen module exists,
    /// every start time is real or the sentinel, and both lists are indexable.
    pub open spec fn wf(&self) -> bool {
        &&& self.persons@.len() <= usize::MAX
        &&& self.modules@.len() <= usize::MAX
        &&& module_names(self.modules@).no_duplicates()
        &&& forall|p: int, j: int|
            0 <= p < self.persons.len() && 0 <= j < self.persons@[p].choice_of_modules.len()
                ==> self.persons@[p].choice_of_modules@[j] < self.modules.len()
        &&& forall|k: int| 0 <= k < self.modules.len() ==> (#[trigger] self.modules@[k]).start_time.wf()
    }

    /// Whether `self` is what digesting `rows` with reference year `year` gives.
    pub open spec fn digests(&self, rows: Seq<RawRecord>, year: i32) -> bool {
        &&& self.wf()
        &&& self.persons.len() == rows.len()
        &&& module_names(self.modules@) == first_seen(all_titles(rows))
        &&& forall|k: int| 0 <= k < self.modules.len()
            ==> (#[trigger] self.modules@[k]).start_time == start_of_title(self.modules@[k].name@, year)
        &&& forall|p: int| 0 <= p < rows.len() ==> {
            let person = #[trigger] self.persons@[p];
            &&& person.identity@ == rows[p].identity@
            &&& person.registration_time == rows[p].registration_time
            &&& person.choice_of_modules.len() == row_titles(rows[p]).len()
            &&& forall|j: int| 0 <= j < person.choice_of_modules.len()
                ==> self.modules@[person.choice_of_modules@[j] as int].name@ == row_titles(rows[p])[j]
        }
    }

    /// Digests raw rows: each row becomes a person, each distinct trimmed
    /// title a module, numbered in order of first occurrence.
    pub fn new(raw_records: &Vec<RawRecord>, year: i32) -> (r: Registrations)
        requires
            year_in_range(year as int),
        ensures
            r.digests(raw_records@, year),
    {
        let ghost rows = raw_records@;
        let mut persons: Vec<Person> = Vec::new();
        let mut modules: Vec<Module> = Vec::new();
        let mut i: usize = 0;
        while i < raw_records.len()
            invariant
                rows == raw_records@,
                year_in_range(year as int),
                i <= rows.len(),
                persons.len() == i,
                module_names(modules@) == first_seen(all_titles(rows.subrange(0, i as int))),
                forall|k: int| 0 <= k < modules.len()
                    ==> (#[trigger] modules@[k]).start_time == start_of_title(modules@[k].name@, year)
                        && modules@[k].start_time.wf(),
                forall|p: int| 0 <= p < i ==> {
                    let person = #[trigger] persons@[p];
                    &&& person.identity@ == rows[p].identity@
                    &&& person.registration_time == rows[p].registration_time
                    &&& chose_titles(person.choice_of_modules@, row_titles(rows[p]), modules@)
                },
            decreases rows.len() - i,
        {
            let row = &raw_records[i];
            let ghost done = all_titles(rows.subrange(0, i as int));
            let ghost titles = row_titles(rows[i as int]);
            assert(rows.subrange(0, i as int + 1).drop_last() =~= rows.subrange(0, i as int));
            assert(all_titles(rows.subrange(0, i as int + 1)) == done + titles);
            let pieces = split_at_separator(row.choice_of_modules.as_str(), ';');
            assert(titles =~= pieces@.map_values(|p: String| p@).map_values(|p: Seq<char>| trimmed(p)));
            let mut ids: Vec<ModuleId> = Vec::new();
            let mut j: usize = 0;
            assert(done + titles.subrange(0, 0) =~= done);
            while j < pieces.len()
                invariant
                    rows == raw_records@,
                    i < rows.len(),
                    persons.len() == i,
                    titles == row_titles(rows[i as int]),
                    year_in_range(year as int),
                    titles.len() == pieces.len(),
                    forall|q: int| 0 <= q < pieces.len() ==> titles[q] == trimmed(#[trigger] pieces@[q]@),
                    j <= pieces.len(),
                    ids.len() == j,
                    module_names(modules@) == first_seen(done + titles.subrange(0, j as int)),
                    forall|k: int| 0 <= k < modules.len()
                        ==> (#[trigger] modules@[k]).start_time == start_of_title(modules@[k].name@, year)
                            && modules@[k].start_time.wf(),
                    chose_titles(ids@, titles.subrange(0, j as int), modules@),
                    forall|p: int| 0 <= p < i ==> {
                        let person = #[trigger] persons@[p];
                        &&& person.identity@ == rows[p].identity@
                        &&& person.registration_time == rows[p].registration_time
                        &&& chose_titles(person.choice_of_modules@, row_titles(rows[p]), modules@)
                    },
                decreases pieces.len() - j,
            {
                let title = trim_text(pieces[j].as_str());
                let ghost before = done + titles.subrange(0, j as int);
                assert(done + titles.subrange(0, j as int + 1) =~= before.push(title@));
                assert(before.push(title@).drop_last() =~= before);
                let ghost ids_before = ids@;
                let id = match find_module(&modules, &title) {
                    Some(k) => {
                        assert(module_names(modules@)[k as int] == title@);
                        assert(first_seen(before).contains(title@));
                        k
                    },
                    None => {
                        let k = modules.len();
                        let module = Module::new(title, year);
                        let ghost old_modules = modules@;
                        modules.push(module);
                        assert(module_names(modules@) =~= first_seen(before).push(module.name@));
                        proof {
                            lemma_chose_titles_grow(ids@, titles.subrange(0, j as int), old_modules, module);
                            assert forall|p: int| 0 <= p < i implies chose_titles(
                                (#[trigger] persons@[p]).choice_of_modules@,
                                row_titles(rows[p]),
                                modules@,
                            ) by {
                                lemma_chose_titles_grow(
                                    persons@[p].choice_of_modules@,
                                    row_titles(rows[p]),
                                    old_modules,
                                    module,
                                );
                            }
                        }
                        k
                    },
                };
                ids.push(id);
                assert(ids@ =~= ids_before.push(id));
                assert(titles.subrange(0, j as int + 1) =~= titles.subrange(0, j as int).push(title@));
                assert(chose_titles(ids@, titles.subrange(0, j as int + 1), modules@)) by {
                    assert forall|q: int| 0 <= q < ids@.len() implies #[trigger] ids@[q] < modules.len()
                        && modules@[ids@[q] as int].name@ == titles.subrange(0, j as int + 1)[q] by {
                        if q < j {
                            assert(ids@[q] == ids_before[q]);
                        }
                    }
                }
                j = j + 1;
            }
            assert(titles.subrange(0, j as int) =~= titles);
            persons.push(Person {
                identity: row.identity.duplicate(),
                choice_of_modules: ids,
                registration_time: row.registration_time,
            });
            i = i + 1;
        }
        assert(rows.subrange(0, i as int) =~= rows);
        proof {
            lemma_first_seen(all_titles(rows));
        }
        let r = Registrations { persons, modules };
        assert forall|p: int, j: int|
            0 <= p < r.persons.len() && 0 <= j < r.persons@[p].choice_of_modules.len() implies
                r.persons@[p].choice_of_modules@[j] < r.modules.len() by {
            assert(chose_titles(r.persons@[p].choice_of_modules@, row_titles(rows[p]), r.modules@));
            assert(r.persons@[p].choice_of_modules@[j] < r.modules.len());
        }
        r
    }
}

} // verus!
