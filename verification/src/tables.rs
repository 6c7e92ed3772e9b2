//! The two tables that the alignment rules consult: the extensions that the
//! resource factory knows, and the alignment requirements of the AGL
//! environment.
use crate::text::push_char;
use vstd::hash_set::StringHashSet;
use vstd::prelude::*;

verus! {

/// The part of a text that stands before the first `stop`, and all of it
/// where there is none.
pub open spec fn spec_until(text: Seq<char>, stop: char) -> Seq<char>
    decreases text.len(),
{
    if text.len() == 0 || text[0] == stop {
        Seq::empty()
    } else {
        seq![text[0]] + spec_until(text.skip(1), stop)
    }
}

/// The part of a text before a stop is no longer than the text.
pub proof fn lemma_until_len(text: Seq<char>, stop: char)
    ensures
        spec_until(text, stop).len() <= text.len(),
        spec_until(text, stop).len() < text.len() ==> text[spec_until(text, stop).len() as int]
            == stop,
    decreases text.len(),
{
    if text.len() != 0 && text[0] != stop {
        lemma_until_len(text.skip(1), stop);
    }
}

/// The names of the factory table: of every line of the text, what stands
/// before its first tab. Lines end at a line feed.
pub open spec fn spec_factory_names(text: Seq<char>) -> Set<Seq<char>>
    decreases text.len(),
{
    let line = spec_until(text, '\n');
    let name = spec_until(line, '\t');
    if line.len() >= text.len() {
        set![name]
    } else {
        spec_factory_names(text.skip(line.len() as int + 1)).insert(name)
    }
}

/// The names that a text still gives once a line has been begun: `current`
/// is what has been read of the line's name, and `in_name` tells whether
/// the name goes on.
pub open spec fn spec_names_after(rest: Seq<char>, current: Seq<char>, in_name: bool) -> Set<
    Seq<char>,
> {
    let line = spec_until(rest, '\n');
    let name = if in_name {
        current + spec_until(line, '\t')
    } else {
        current
    };
    if line.len() >= rest.len() {
        set![name]
    } else {
        spec_factory_names(rest.skip(line.len() as int + 1)).insert(name)
    }
}

/// Reading one character of a line: a line feed ends the line, a tab ends
/// its name, and any other character is added to the name while that goes
/// on.
proof fn lemma_names_after_step(rest: Seq<char>, current: Seq<char>, in_name: bool)
    requires
        rest.len() > 0,
    ensures
        spec_names_after(rest, current, in_name) == if rest[0] == '\n' {
            spec_names_after(rest.skip(1), Seq::empty(), true).insert(current)
        } else if rest[0] == '\t' {
            spec_names_after(rest.skip(1), current, false)
        } else if in_name {
            spec_names_after(rest.skip(1), current.push(rest[0]), true)
        } else {
            spec_names_after(rest.skip(1), current, false)
        },
{
    let tail = rest.skip(1);
    let line = spec_until(rest, '\n');
    let tail_line = spec_until(tail, '\n');
    lemma_until_len(rest, '\n');
    lemma_until_len(tail, '\n');
    if rest[0] != '\n' {
        assert(line.skip(1) == tail_line);
        if line.len() < rest.len() {
            assert(rest.skip(line.len() as int + 1) == tail.skip(tail_line.len() as int + 1));
        }
        if rest[0] != '\t' {
            assert(current + (seq![rest[0]] + spec_until(tail_line, '\t')) == current.push(rest[0])
                + spec_until(tail_line, '\t'));
        }
    }
}

/// Reads the table of the extensions that the resource factory knows: of
/// every line, what stands before the first tab.
pub fn get_botw_factory_names(info: &str) -> (names: StringHashSet)
    ensures
        names@ == spec_factory_names(info@),
{
    broadcast use vstd::string::group_string_axioms;

    let mut names = StringHashSet::new();
    let mut current = String::new();
    let mut in_name = true;
    assert(info@.skip(0) == info@);
    for c in it: info.chars()
        invariant
            it.seq() == info@,
            spec_factory_names(info@) == names@.union(
                spec_names_after(info@.skip(it.index() as int), current@, in_name),
            ),
    {
        let ghost rest = info@.skip(it.index() as int);
        proof {
            lemma_names_after_step(rest, current@, in_name);
            assert(rest.skip(1) == info@.skip(it.index() + 1));
        }
        if c == '\n' {
            names.insert(current);
            current = String::new();
            in_name = true;
        } else if c == '\t' {
            in_name = false;
        } else if in_name {
            push_char(&mut current, c);
        }
    }
    names.insert(current);
    names
}

/// One entry of the AGL environment table, as far as the alignment rules
/// read it.
pub struct AglEnvInfo {
    /// The first extension that the entry names.
    pub ext: String,
    /// The second extension that the entry names.
    pub bext: String,
    /// The alignment of both; a negative value asks for none.
    pub align: i32,
}

/// An entry of the AGL environment table as plain values.
pub struct AglEnvInfoView {
    /// The first extension that the entry names.
    pub ext: Seq<char>,
    /// The second extension that the entry names.
    pub bext: Seq<char>,
    /// The alignment of both; a negative value asks for none.
    pub align: i32,
}

impl View for AglEnvInfo {
    type V = AglEnvInfoView;

    open spec fn view(&self) -> AglEnvInfoView {
        AglEnvInfoView { ext: self.ext@, bext: self.bext@, align: self.align }
    }
}

/// The alignment requirements of the first `count` entries of the table:
/// an entry whose alignment is not negative asks for it under both of its
/// extensions, and any other entry asks for nothing.
pub open spec fn spec_agl_requirements(info: Seq<AglEnvInfoView>, count: int) -> Seq<
    (Seq<char>, usize),
>
    decreases count,
{
    if count <= 0 {
        Seq::empty()
    } else if info[count - 1].align >= 0 {
        spec_agl_requirements(info, count - 1).push(
            (info[count - 1].ext, info[count - 1].align as usize),
        ).push((info[count - 1].bext, info[count - 1].align as usize))
    } else {
        spec_agl_requirements(info, count - 1)
    }
}

/// Requirements as plain values.
pub open spec fn spec_requirements(requirements: Seq<(String, usize)>) -> Seq<(Seq<char>, usize)> {
    requirements.map_values(|requirement: (String, usize)| (requirement.0@, requirement.1))
}

/// The alignment requirements of the AGL environment table.
pub fn get_agl_env_alignment_requirements(info: &Vec<AglEnvInfo>) -> (requirements: Vec<
    (String, usize),
>)
    ensures
        spec_requirements(requirements@) == spec_agl_requirements(
            info@.map_values(|entry: AglEnvInfo| entry@),
            info@.len() as int,
        ),
{
    let ghost views = info@.map_values(|entry: AglEnvInfo| entry@);
    let mut requirements: Vec<(String, usize)> = Vec::new();
    let mut index: usize = 0;
    while index < info.len()
        invariant
            index <= info.len(),
            views == info@.map_values(|entry: AglEnvInfo| entry@),
            spec_requirements(requirements@) == spec_agl_requirements(views, index as int),
        decreases info.len() - index,
    {
        let entry = &info[index];
        if entry.align >= 0 {
            let align = entry.align as usize;
            let ext = entry.ext.clone();
            let bext = entry.bext.clone();
            requirements.push((ext, align));
            requirements.push((bext, align));
        }
        index += 1;
    }
    requirements
}

} // verus!
