//! The text that the viewer prints for the selected lines.

use vstd::prelude::*;

use crate::json::{format_json_line, formatted_line, json_parse, json_pretty, prepared};
use crate::text::{decimal, push_decimal};
use crate::{JlvError, OutputOptions, SelectedLine, SelectedLineModel};

verus! {

/// The texts of optional strings.
pub open spec fn bodies_view(bodies: Seq<Option<String>>) -> Seq<Option<Seq<char>>> {
    bodies.map_values(|b: Option<String>| match b {
        Some(s) => Some(s@),
        None => None,
    })
}

/// The pretty-printed form of entry `i`, where there is one.
pub open spec fn body_at(bodies: Seq<Option<Seq<char>>>, i: int) -> Option<Seq<char>> {
    if 0 <= i < bodies.len() {
        bodies[i]
    } else {
        None
    }
}

/// The pretty-printed bodies of the entries: when pretty-printing, each
/// entry's JSON with its long strings shortened ([`formatted_line`]), and
/// none where it is not JSON; none at all otherwise.
pub open spec fn pretty_bodies(entries: Seq<SelectedLineModel>, options: OutputOptions) -> Seq<Option<Seq<char>>> {
    Seq::new(entries.len(), |i: int| if options.pretty is Some {
        formatted_line(entries[i].content, options.max_chars as nat)
    } else {
        None
    })
}

/// What is printed between two entries: a line break, and as many blank
/// lines as the pretty-printing gap.
pub open spec fn separator(options: OutputOptions) -> Seq<char> {
    let gap = match options.pretty {
        Some(g) => g as nat,
        None => 0,
    };
    Seq::new(gap + 1, |_k: int| '\n')
}

/// The header `[line N]` or `[entry N]` of a pretty-printed entry.
pub open spec fn pretty_header(e: SelectedLineModel, index: int, options: OutputOptions) -> Seq<char> {
    if options.show_line_numbers {
        match e.line_number {
            Some(n) => "[line "@ + decimal(n as nat) + "]\n"@,
            None => "[entry "@ + decimal((index + 1) as nat) + "]\n"@,
        }
    } else {
        Seq::empty()
    }
}

/// How entry `index` is printed. When pretty-printing, the entry is shown
/// by `body` (its pretty-printed JSON) where there is one, and as it is
/// where there is none (it is not valid JSON).
pub open spec fn entry_block(e: SelectedLineModel, index: int, options: OutputOptions, body: Option<Seq<char>>) -> Seq<char> {
    if options.pretty is Some {
        pretty_header(e, index, options) + match body {
            Some(b) => b,
            None => e.content,
        }
    } else if options.show_line_numbers && e.line_number is Some {
        "[line "@ + decimal(e.line_number->0 as nat) + "] "@ + e.content
    } else {
        e.content
    }
}

/// The first `n` entries, printed and separated.
pub open spec fn rendered_prefix(
    entries: Seq<SelectedLineModel>,
    options: OutputOptions,
    bodies: Seq<Option<Seq<char>>>,
    n: int,
) -> Seq<char>
    decreases n,
{
    if n <= 0 {
        Seq::empty()
    } else {
        rendered_prefix(entries, options, bodies, n - 1) + (if n - 1 > 0 { separator(options) } else { Seq::empty() })
            + entry_block(entries[n - 1], n - 1, options, body_at(bodies, n - 1))
    }
}

/// The whole text: the printed entries, then a final line break unless
/// nothing was printed.
pub open spec fn render_spec(entries: Seq<SelectedLineModel>, options: OutputOptions, bodies: Seq<Option<Seq<char>>>) -> Seq<char> {
    let all = rendered_prefix(entries, options, bodies, entries.len() as int);
    if all.len() == 0 {
        all
    } else {
        all.push('\n')
    }
}

/// The models of a slice of selected lines.
pub open spec fn entries_view(entries: Seq<SelectedLine>) -> Seq<SelectedLineModel> {
    entries.map_values(|e: SelectedLine| e@)
}

/// The text printed for `entries`, given the pretty-printed body of each
/// entry: when `options.pretty` is set, entry `i` is shown by
/// `bodies[i]` where there is one, and as it is where there is none.
pub fn render_entries(entries: &[SelectedLine], options: &OutputOptions, bodies: &[Option<String>]) -> (res: Result<String, JlvError>)
    ensures
        res matches Ok(s) && s@ == render_spec(entries_view(entries@), *options, bodies_view(bodies@)),
{
    let mut output = String::new();
    let pretty_gap: usize = match options.pretty {
        Some(g) => g,
        None => 0,
    };
    let pretty_enabled = options.pretty.is_some();
    let ghost ents = entries_view(entries@);
    let n = entries.len();
    let mut index: usize = 0;
    while index < n
        invariant
            index <= n,
            n == entries@.len(),
            ents == entries_view(entries@),
            ents.len() == n,
            pretty_gap == match options.pretty { Some(g) => g, None => 0usize },
            pretty_enabled == options.pretty is Some,
            output@ == rendered_prefix(ents, *options, bodies_view(bodies@), index as int),
        decreases n - index,
    {
        let ghost before = output@;
        let entry = &entries[index];
        assert(ents[index as int] == entry@);
        if index > 0 {
            output.push('\n');
            let mut g: usize = 0;
            while g < pretty_gap
                invariant
                    g <= pretty_gap,
                    output@ == before + Seq::new((g + 1) as nat, |_k: int| '\n'),
                decreases pretty_gap - g,
            {
                output.push('\n');
                g = g + 1;
                assert(output@ =~= before + Seq::new((g + 1) as nat, |_k: int| '\n'));
            }
            assert(output@ =~= before + separator(*options));
        } else {
            assert(output@ =~= before + Seq::<char>::empty());
        }
        let ghost with_sep = output@;
        if pretty_enabled {
            if options.show_line_numbers {
                match entry.line_number {
                    Some(line_number) => {
                        output.append("[line ");
                        push_decimal(&mut output, line_number);
                        output.append("]\n");
                    },
                    None => {
                        output.append("[entry ");
                        push_decimal(&mut output, index + 1);
                        output.append("]\n");
                    },
                }
            }
            let ghost with_header = output@;
            assert(with_header =~= with_sep + pretty_header(entry@, index as int, *options));
            let body: Option<&String> = if index < bodies.len() {
                bodies[index].as_ref()
            } else {
                None
            };
            match body {
                Some(b) => output.append(b.as_str()),
                None => output.append(entry.content.as_str()),
            }
        } else {
            if options.show_line_numbers {
                match entry.line_number {
                    Some(line_number) => {
                        output.append("[line ");
                        push_decimal(&mut output, line_number);
                        output.append("] ");
                        output.append(entry.content.as_str());
                    },
                    None => {
                        output.append(entry.content.as_str());
                    },
                }
            } else {
                output.append(entry.content.as_str());
            }
        }
        assert(output@ =~= with_sep + entry_block(entry@, index as int, *options, body_at(bodies_view(bodies@), index as int)));
        index = index + 1;
    }
    if output.as_str().unicode_len() > 0 {
        output.push('\n');
    }
    Ok(output)
}

/// The text that the viewer prints for `entries`. When pretty-printing, each
/// entry that holds JSON is shown pretty-printed, its strings longer than
/// `options.max_chars` characters shortened (none where the limit is 0);
/// an entry that is not JSON is shown as it is.
pub fn render_lines(entries: &[SelectedLine], options: &OutputOptions) -> (res: Result<String, JlvError>)
    ensures
        res matches Ok(s) && s@ == render_spec(
            entries_view(entries@),
            *options,
            pretty_bodies(entries_view(entries@), *options),
        ),
{
    let ghost ents = entries_view(entries@);
    let n = entries.len();
    let mut bodies: Vec<Option<String>> = Vec::new();
    let mut i: usize = 0;
    while i < n
        invariant
            i <= n,
            n == entries@.len(),
            ents == entries_view(entries@),
            bodies@.len() == i,
            forall|k: int| 0 <= k < i ==> #[trigger] bodies_view(bodies@)[k] == pretty_bodies(ents, *options)[k],
        decreases n - i,
    {
        let body = if options.pretty.is_some() {
            format_json_line(entries[i].content.as_str(), options.max_chars)
        } else {
            None
        };
        let ghost before = bodies@;
        bodies.push(body);
        proof {
            assert forall|k: int| 0 <= k < i + 1 implies #[trigger] bodies_view(bodies@)[k] == pretty_bodies(ents, *options)[k] by {
                if k < i {
                    assert(bodies@[k] == before[k]);
                    assert(bodies_view(before)[k] == pretty_bodies(ents, *options)[k]);
                } else {
                    assert(ents[k] == entries@[k]@);
                }
            }
        }
        i = i + 1;
    }
    assert(bodies_view(bodies@) =~= pretty_bodies(ents, *options));
    render_entries(entries, options, bodies.as_slice())
}


/// Texts joined by line feeds.
pub open spec fn join_lines(texts: Seq<Seq<char>>) -> Seq<char>
    decreases texts.len(),
{
    if texts.len() == 0 {
        Seq::empty()
    } else if texts.len() == 1 {
        texts[0]
    } else {
        join_lines(texts.drop_last()) + seq!['\n'] + texts.last()
    }
}

/// Without pretty-printing and without line numbers, the viewer prints the
/// lines as they are, one per line: their texts joined by line feeds, with a
/// final line feed unless that text is empty.
pub proof fn law_plain_output_is_the_lines(entries: Seq<SelectedLineModel>, options: OutputOptions, bodies: Seq<Option<Seq<char>>>)
    requires
        options.pretty is None,
        !options.show_line_numbers,
    ensures
        ({
            let joined = join_lines(entries.map_values(|e: SelectedLineModel| e.content));
            render_spec(entries, options, bodies) == if joined.len() == 0 { joined } else { joined.push('\n') }
        }),
{
    lemma_plain_prefix(entries, options, bodies, entries.len() as int);
    assert(entries.map_values(|e: SelectedLineModel| e.content).take(entries.len() as int)
        =~= entries.map_values(|e: SelectedLineModel| e.content));
}

proof fn lemma_plain_prefix(entries: Seq<SelectedLineModel>, options: OutputOptions, bodies: Seq<Option<Seq<char>>>, n: int)
    requires
        options.pretty is None,
        !options.show_line_numbers,
        0 <= n <= entries.len(),
    ensures
        rendered_prefix(entries, options, bodies, n)
            == join_lines(entries.map_values(|e: SelectedLineModel| e.content).take(n)),
    decreases n,
{
    let texts = entries.map_values(|e: SelectedLineModel| e.content);
    if n > 0 {
        lemma_plain_prefix(entries, options, bodies, n - 1);
        assert(texts.take(n).drop_last() =~= texts.take(n - 1));
        assert(separator(options) =~= seq!['\n']);
        if n == 1 {
            assert(rendered_prefix(entries, options, bodies, 0) =~= Seq::<char>::empty());
            assert(rendered_prefix(entries, options, bodies, 1) =~= entries[0].content);
        }
    } else {
        assert(texts.take(0) =~= Seq::<Seq<char>>::empty());
    }
}

/// The text that [`render_lines`] prints for `entries`.
pub open spec fn rendered(entries: Seq<SelectedLineModel>, options: OutputOptions) -> Seq<char> {
    render_spec(entries, options, pretty_bodies(entries, options))
}

/// The number of blank lines between two entries.
pub open spec fn gap_of(options: OutputOptions) -> nat {
    match options.pretty {
        Some(g) => g as nat,
        None => 0,
    }
}

/// How `e` is shown does not depend on where it stands: only an entry
/// without a number, pretty-printed with headers, is headed by its position.
pub open spec fn shown_without_position(e: SelectedLineModel, options: OutputOptions) -> bool {
    options.pretty is None || !options.show_line_numbers || e.line_number is Some
}

proof fn lemma_block_position(e: SelectedLineModel, i: int, j: int, options: OutputOptions, body: Option<Seq<char>>)
    requires
        shown_without_position(e, options),
    ensures
        entry_block(e, i, options, body) == entry_block(e, j, options, body),
{
}

proof fn lemma_concat_front(a: Seq<SelectedLineModel>, b: Seq<SelectedLineModel>, options: OutputOptions, n: int)
    requires
        0 <= n <= a.len(),
    ensures
        rendered_prefix(a + b, options, pretty_bodies(a + b, options), n)
            == rendered_prefix(a, options, pretty_bodies(a, options), n),
    decreases n,
{
    if n > 0 {
        lemma_concat_front(a, b, options, n - 1);
        assert((a + b)[n - 1] == a[n - 1]);
        assert(body_at(pretty_bodies(a + b, options), n - 1) == body_at(pretty_bodies(a, options), n - 1));
    }
}

proof fn lemma_concat_back(a: Seq<SelectedLineModel>, b: Seq<SelectedLineModel>, options: OutputOptions, n: int)
    requires
        a.len() > 0,
        1 <= n <= b.len(),
        forall|j: int| 0 <= j < b.len() ==> shown_without_position(#[trigger] b[j], options),
    ensures
        rendered_prefix(a + b, options, pretty_bodies(a + b, options), a.len() + n)
            == rendered_prefix(a, options, pretty_bodies(a, options), a.len() as int) + separator(options)
                + rendered_prefix(b, options, pretty_bodies(b, options), n),
    decreases n,
{
    let ab = a + b;
    let k = a.len() + n - 1;
    assert(ab[k] == b[n - 1]);
    assert(body_at(pretty_bodies(ab, options), k) == body_at(pretty_bodies(b, options), n - 1));
    lemma_block_position(b[n - 1], k, n - 1, options, body_at(pretty_bodies(b, options), n - 1));
    if n == 1 {
        lemma_concat_front(a, b, options, a.len() as int);
        assert(rendered_prefix(b, options, pretty_bodies(b, options), 0) =~= Seq::<char>::empty());
        assert(rendered_prefix(b, options, pretty_bodies(b, options), 1)
            =~= entry_block(b[0], 0, options, body_at(pretty_bodies(b, options), 0)));
    } else {
        lemma_concat_back(a, b, options, n - 1);
    }
    assert(rendered_prefix(ab, options, pretty_bodies(ab, options), a.len() + n)
        =~= rendered_prefix(a, options, pretty_bodies(a, options), a.len() as int) + separator(options)
            + rendered_prefix(b, options, pretty_bodies(b, options), n));
}

/// Printing two lists of entries one after the other is printing the first,
/// the blank lines of the gap, then the second: where both print something,
/// and the entries of the second are shown the same at any position.
pub proof fn law_render_concat(a: Seq<SelectedLineModel>, b: Seq<SelectedLineModel>, options: OutputOptions)
    requires
        rendered(a, options).len() > 0,
        rendered(b, options).len() > 0,
        forall|j: int| 0 <= j < b.len() ==> shown_without_position(#[trigger] b[j], options),
    ensures
        rendered(a + b, options) == rendered(a, options) + Seq::new(gap_of(options), |_k: int| '\n')
            + rendered(b, options),
{
    let pa = rendered_prefix(a, options, pretty_bodies(a, options), a.len() as int);
    let pb = rendered_prefix(b, options, pretty_bodies(b, options), b.len() as int);
    assert(a.len() > 0) by {
        if a.len() == 0 {
            assert(pa =~= Seq::<char>::empty());
        }
    }
    assert(b.len() > 0) by {
        if b.len() == 0 {
            assert(pb =~= Seq::<char>::empty());
        }
    }
    lemma_concat_back(a, b, options, b.len() as int);
    assert((a + b).len() == a.len() + b.len());
    let pab = rendered_prefix(a + b, options, pretty_bodies(a + b, options), (a + b).len() as int);
    assert(pab == pa + separator(options) + pb);
    assert(pab.len() > 0);
    assert(separator(options) =~= seq!['\n'] + Seq::new(gap_of(options), |_k: int| '\n'));
    assert(rendered(a + b, options) =~= pa.push('\n') + Seq::new(gap_of(options), |_k: int| '\n') + pb.push('\n'));
}

/// `a` and `b` hold the same texts, whatever their line numbers.
pub open spec fn same_contents(a: Seq<SelectedLineModel>, b: Seq<SelectedLineModel>) -> bool {
    a.len() == b.len() && forall|i: int| 0 <= i < a.len() ==> (#[trigger] a[i]).content == b[i].content
}

/// With pretty-printing on and line numbers off, what is printed does not
/// depend on the entries' line numbers: entries with the same texts print
/// the same, numbered or not.
pub proof fn law_pretty_ignores_line_numbers(a: Seq<SelectedLineModel>, b: Seq<SelectedLineModel>, options: OutputOptions)
    requires
        options.pretty is Some,
        !options.show_line_numbers,
        same_contents(a, b),
    ensures
        rendered(a, options) == rendered(b, options),
{
    assert forall|n: int| 0 <= n <= a.len() implies
        rendered_prefix(a, options, pretty_bodies(a, options), n)
            == rendered_prefix(b, options, pretty_bodies(b, options), n) by {
        lemma_same_prefix(a, b, options, n);
    }
}

proof fn lemma_same_prefix(a: Seq<SelectedLineModel>, b: Seq<SelectedLineModel>, options: OutputOptions, n: int)
    requires
        options.pretty is Some,
        !options.show_line_numbers,
        same_contents(a, b),
        0 <= n <= a.len(),
    ensures
        rendered_prefix(a, options, pretty_bodies(a, options), n)
            == rendered_prefix(b, options, pretty_bodies(b, options), n),
    decreases n,
{
    if n > 0 {
        lemma_same_prefix(a, b, options, n - 1);
        assert(a[n - 1].content == b[n - 1].content);
    }
}

/// With pretty-printing on and line numbers off, an entry whose text is JSON
/// is printed as that JSON pretty-printed, with its strings cut to
/// `max_chars` characters (none cut for a limit of 0), then a line break;
/// whether the entry has a line number or not.
pub proof fn law_pretty_entry_is_its_json(e: SelectedLineModel, options: OutputOptions)
    requires
        options.pretty is Some,
        !options.show_line_numbers,
        json_parse(e.content) is Some,
        json_pretty(prepared(json_parse(e.content)->0, options.max_chars as nat)) is Some,
    ensures
        ({
            let body = json_pretty(prepared(json_parse(e.content)->0, options.max_chars as nat))->0;
            rendered(seq![e], options) == if body.len() == 0 { body } else { body.push('\n') }
        }),
{
    let s = seq![e];
    assert(rendered_prefix(s, options, pretty_bodies(s, options), 0) =~= Seq::<char>::empty());
    let body = json_pretty(prepared(json_parse(e.content)->0, options.max_chars as nat))->0;
    assert(rendered_prefix(s, options, pretty_bodies(s, options), 1) =~= body);
}

/// With pretty-printing on, an entry whose text is not JSON is printed as it
/// is.
pub proof fn law_pretty_non_json_as_is(e: SelectedLineModel, options: OutputOptions)
    requires
        options.pretty is Some,
        !options.show_line_numbers,
        json_parse(e.content) is None,
    ensures
        rendered(seq![e], options) == if e.content.len() == 0 { e.content } else { e.content.push('\n') },
{
    let s = seq![e];
    assert(rendered_prefix(s, options, pretty_bodies(s, options), 0) =~= Seq::<char>::empty());
    assert(rendered_prefix(s, options, pretty_bodies(s, options), 1) =~= e.content);
}

} // verus!
