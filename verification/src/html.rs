use crate::category::{models_of, Category, CategoryModel, Colour};
use crate::error::ScheduleError;
use crate::layout::{
    column_of, height_thirds_of, row_of, slot_layout, top_thirds_of, SlotLayout, WeekSpan,
};
use crate::schedule::{consistent, Event, EventModel, Schedule, ScheduleModel, TimeSlot};
use crate::text::{decimal_text, push_decimal, replaced, substitute};
use vstd::prelude::*;
use vstd::string::*;

verus! {

/// The token of a template that the style rules replace.
pub open spec fn style_marker() -> Seq<char> {
    "%%STYLE%%"@
}

/// The token of a template that the markup replaces.
pub open spec fn html_marker() -> Seq<char> {
    "%%HTML%%"@
}

/// One slot as it is drawn: its number, and what it shows of its event.
/// The slots of a schedule are numbered from 1, event after event and
/// within an event slot after slot.
pub struct Placement {
    pub id: nat,
    pub category: nat,
    pub title: Seq<char>,
    pub slot: TimeSlot,
}

/// The placements of one event, of which `before` slots come earlier in
/// the schedule.
pub open spec fn event_placements(event: EventModel, before: nat) -> Seq<Placement> {
    Seq::new(
        event.slots.len(),
        |j: int|
            Placement {
                id: (before + j + 1) as nat,
                category: event.category,
                title: event.title,
                slot: event.slots[j],
            },
    )
}

/// The placements of a run of events, in the order in which they are
/// drawn.
pub open spec fn placements(events: Seq<EventModel>) -> Seq<Placement>
    decreases events.len(),
{
    if events.len() == 0 {
        Seq::empty()
    } else {
        let earlier = placements(events.drop_last());
        earlier + event_placements(events.last(), earlier.len())
    }
}

/// What is wrong with one placement, if anything: its category is not
/// one of the schedule's `categories` categories, or else its day has no
/// column.
pub open spec fn placement_error(p: Placement, categories: nat, span: WeekSpan) -> Option<
    ScheduleError,
> {
    if p.category >= categories {
        Some(ScheduleError::InconsistentCategoryIndex)
    } else if !span.supports(p.slot.day) {
        Some(ScheduleError::UnsupportedDay)
    } else {
        None
    }
}

/// The error of the first placement that has one.
pub open spec fn first_error(ps: Seq<Placement>, categories: nat, span: WeekSpan) -> Option<
    ScheduleError,
>
    decreases ps.len(),
{
    if ps.len() == 0 {
        None
    } else {
        match first_error(ps.drop_last(), categories, span) {
            Some(e) => Some(e),
            None => placement_error(ps.last(), categories, span),
        }
    }
}

/// The writing of a whole number, with `-` before a negative one.
pub open spec fn integer_text(i: int) -> Seq<char> {
    if i < 0 {
        "-"@ + decimal_text((-i) as nat)
    } else {
        decimal_text(i as nat)
    }
}

/// The writing of a percentage given in thirds of a percent: the whole
/// percents, and four decimals where a third or two thirds are left.
pub open spec fn percent_text(thirds: nat) -> Seq<char> {
    if thirds % 3 == 0 {
        decimal_text(thirds / 3)
    } else if thirds % 3 == 1 {
        decimal_text(thirds / 3) + ".3333"@
    } else {
        decimal_text(thirds / 3) + ".6667"@
    }
}

/// The style rule that gives the category with this id its colour.
pub open spec fn category_css(id: nat, colour: Colour) -> Seq<char> {
    ".cat-"@ + decimal_text(id) + " {\n    background-color: rgb("@ + decimal_text(colour.r as nat)
        + ", "@ + decimal_text(colour.g as nat) + ", "@ + decimal_text(colour.b as nat)
        + ");\n}\n\n"@
}

/// The style rules of a run of categories, whose ids are their places.
pub open spec fn categories_css(categories: Seq<CategoryModel>) -> Seq<char>
    decreases categories.len(),
{
    if categories.len() == 0 {
        Seq::empty()
    } else {
        categories_css(categories.drop_last()) + category_css(
            (categories.len() - 1) as nat,
            categories.last().colour,
        )
    }
}

/// The style rule that puts the slot with this id in its place: column
/// and row of the grid, the offset from the top of the row, and the
/// height, which leaves 8 pixels free below the block.
pub open spec fn slot_css(id: nat, slot: TimeSlot) -> Seq<char> {
    ".event-"@ + decimal_text(id) + " {\n    grid-column: "@ + integer_text(column_of(slot.day))
        + ";\n    grid-row: "@ + integer_text(row_of(slot.start_minute as int)) + ";\n    top: "@
        + percent_text(top_thirds_of(slot.start_minute as int) as nat) + "%;\n    height: calc("@
        + percent_text(height_thirds_of(slot.duration_minutes as int) as nat)
        + "% - 8px);\n}\n\n"@
}

/// The block of markup that shows the slot with this id: an element of
/// the classes of its category and of its slot, around the title as it
/// stands. Nothing in the title is escaped.
pub open spec fn slot_markup(id: nat, category: nat, title: Seq<char>) -> Seq<char> {
    "<div class=\"cat-"@ + decimal_text(category) + " event event-"@ + decimal_text(id)
        + "\">\n    "@ + title + "\n</div>\n"@
}

/// The style rules of a run of placements.
pub open spec fn placements_css(ps: Seq<Placement>) -> Seq<char>
    decreases ps.len(),
{
    if ps.len() == 0 {
        Seq::empty()
    } else {
        placements_css(ps.drop_last()) + slot_css(ps.last().id, ps.last().slot)
    }
}

/// The markup of a run of placements.
pub open spec fn placements_markup(ps: Seq<Placement>) -> Seq<char>
    decreases ps.len(),
{
    if ps.len() == 0 {
        Seq::empty()
    } else {
        placements_markup(ps.drop_last()) + slot_markup(
            ps.last().id,
            ps.last().category,
            ps.last().title,
        )
    }
}

/// The style rules of a schedule: one rule for each category, then one
/// for each slot.
pub open spec fn stylesheet(schedule: ScheduleModel) -> Seq<char> {
    categories_css(schedule.categories) + placements_css(placements(schedule.events))
}

/// The markup of a schedule: one block for each slot.
pub open spec fn markup(schedule: ScheduleModel) -> Seq<char> {
    placements_markup(placements(schedule.events))
}

/// The document that a template and a schedule give on a grid of the
/// given span. Where a slot has an error there is no document, and the
/// first such error is the result. Else the style marker is replaced by
/// the style rules wherever it stands in the template, and then the
/// markup marker by the markup; a marker that the template lacks is
/// passed over.
pub open spec fn document(template: Seq<char>, schedule: ScheduleModel, span: WeekSpan) -> Result<
    Seq<char>,
    ScheduleError,
> {
    match first_error(placements(schedule.events), schedule.categories.len(), span) {
        Some(e) => Err(e),
        None => Ok(
            replaced(
                replaced(template, style_marker(), stylesheet(schedule)),
                html_marker(),
                markup(schedule),
            ),
        ),
    }
}

/// Appends the writing of `i` to `out`.
fn push_integer(out: &mut String, i: i32)
    ensures
        final(out)@ == old(out)@ + integer_text(i as int),
{
    if i < 0 {
        out.append("-");
        push_decimal(out, (-(i as i64)) as u128);
        assert(out@ =~= old(out)@ + integer_text(i as int));
    } else {
        push_decimal(out, i as u128);
    }
}

/// Appends the writing of a percentage, given in thirds of a percent, to
/// `out`.
fn push_percent(out: &mut String, thirds: u32)
    ensures
        final(out)@ == old(out)@ + percent_text(thirds as nat),
{
    push_decimal(out, (thirds / 3) as u128);
    if thirds % 3 == 1 {
        out.append(".3333");
        assert(out@ =~= old(out)@ + percent_text(thirds as nat));
    } else if thirds % 3 == 2 {
        out.append(".6667");
        assert(out@ =~= old(out)@ + percent_text(thirds as nat));
    }
}

/// The style rule of one category.
fn category_rule(id: usize, colour: Colour) -> (rule: String)
    ensures
        rule@ == category_css(id as nat, colour),
{
    let mut rule = String::from_str(".cat-");
    push_decimal(&mut rule, id as u128);
    rule.append(" {\n    background-color: rgb(");
    push_decimal(&mut rule, colour.r as u128);
    rule.append(", ");
    push_decimal(&mut rule, colour.g as u128);
    rule.append(", ");
    push_decimal(&mut rule, colour.b as u128);
    rule.append(");\n}\n\n");
    rule
}

/// The style rule of one slot.
fn slot_rule(id: u128, slot: TimeSlot, layout: SlotLayout) -> (rule: String)
    requires
        layout.column == column_of(slot.day),
        layout.row == row_of(slot.start_minute as int),
        layout.top_thirds == top_thirds_of(slot.start_minute as int),
        layout.height_thirds == height_thirds_of(slot.duration_minutes as int),
    ensures
        rule@ == slot_css(id as nat, slot),
{
    let mut rule = String::from_str(".event-");
    push_decimal(&mut rule, id);
    rule.append(" {\n    grid-column: ");
    push_integer(&mut rule, layout.column as i32);
    rule.append(";\n    grid-row: ");
    push_integer(&mut rule, layout.row);
    rule.append(";\n    top: ");
    push_percent(&mut rule, layout.top_thirds as u32);
    rule.append("%;\n    height: calc(");
    push_percent(&mut rule, layout.height_thirds);
    rule.append("% - 8px);\n}\n\n");
    rule
}

/// The block of markup of one slot.
fn slot_block(id: u128, category: usize, title: &str) -> (block: String)
    ensures
        block@ == slot_markup(id as nat, category as nat, title@),
{
    let mut block = String::from_str("<div class=\"cat-");
    push_decimal(&mut block, category as u128);
    block.append(" event event-");
    push_decimal(&mut block, id);
    block.append("\">\n    ");
    block.append(title);
    block.append("\n</div>\n");
    block
}

/// What [`generate_html`] returns, as plain values.
pub open spec fn rendering(doc: Result<String, ScheduleError>) -> Result<Seq<char>, ScheduleError> {
    match doc {
        Ok(text) => Ok(text@),
        Err(e) => Err(e),
    }
}

/// Extending a run of placements by one extends its style rules, its
/// markup and its first error by that placement's.
proof fn lemma_placement_added(ps: Seq<Placement>, p: Placement, categories: nat, span: WeekSpan)
    ensures
        placements_css(ps.push(p)) == placements_css(ps) + slot_css(p.id, p.slot),
        placements_markup(ps.push(p)) == placements_markup(ps) + slot_markup(
            p.id,
            p.category,
            p.title,
        ),
        first_error(ps.push(p), categories, span) == match first_error(ps, categories, span) {
            Some(e) => Some(e),
            None => placement_error(p, categories, span),
        },
{
    assert(ps.push(p).drop_last() =~= ps);
}

/// The style rules and the markup of two runs of placements, one after
/// the other, are those of the first and then those of the second; their
/// first error is that of the first run, or else that of the second.
proof fn lemma_placements_joined(
    a: Seq<Placement>,
    b: Seq<Placement>,
    categories: nat,
    span: WeekSpan,
)
    ensures
        placements_css(a + b) == placements_css(a) + placements_css(b),
        placements_markup(a + b) == placements_markup(a) + placements_markup(b),
        first_error(a + b, categories, span) == match first_error(a, categories, span) {
            Some(e) => Some(e),
            None => first_error(b, categories, span),
        },
    decreases b.len(),
{
    if b.len() == 0 {
        assert(a + b =~= a);
        assert(placements_css(a) + placements_css(b) =~= placements_css(a));
        assert(placements_markup(a) + placements_markup(b) =~= placements_markup(a));
    } else {
        let front = b.drop_last();
        let p = b.last();
        lemma_placements_joined(a, front, categories, span);
        assert(a + b =~= (a + front).push(p));
        assert(b =~= front.push(p));
        lemma_placement_added(a + front, p, categories, span);
        lemma_placement_added(front, p, categories, span);
        assert(placements_css(a + b) =~= placements_css(a) + placements_css(b));
        assert(placements_markup(a + b) =~= placements_markup(a) + placements_markup(b));
    }
}

/// An error among the placements of the first events of a schedule is the
/// first error of the whole schedule.
proof fn lemma_first_error_stays(events: Seq<EventModel>, i: int, categories: nat, span: WeekSpan)
    requires
        0 <= i <= events.len(),
        first_error(placements(events.take(i)), categories, span) is Some,
    ensures
        first_error(placements(events), categories, span) == first_error(
            placements(events.take(i)),
            categories,
            span,
        ),
    decreases events.len(),
{
    if i == events.len() {
        assert(events.take(i) =~= events);
    } else {
        let front = events.drop_last();
        assert(front.take(i) =~= events.take(i));
        lemma_first_error_stays(front, i, categories, span);
        lemma_placements_joined(
            placements(front),
            event_placements(events.last(), placements(front).len()),
            categories,
            span,
        );
    }
}

/// Draws one slot: appends its style rule to `css` and its block to
/// `html`, unless the placement has an error.
fn draw_slot(
    css: &mut String,
    html: &mut String,
    id: u128,
    event: &Event,
    j: usize,
    categories: usize,
    span: WeekSpan,
) -> (drawn: Result<(), ScheduleError>)
    requires
        j < event.slots.len(),
    ensures
        ({
            let p = Placement {
                id: id as nat,
                category: event@.category,
                title: event@.title,
                slot: event@.slots[j as int],
            };
            match drawn {
                Ok(_) => {
                    &&& placement_error(p, categories as nat, span) is None
                    &&& final(css)@ == old(css)@ + slot_css(p.id, p.slot)
                    &&& final(html)@ == old(html)@ + slot_markup(p.id, p.category, p.title)
                },
                Err(e) => placement_error(p, categories as nat, span) == Some(e),
            }
        }),
{
    let slot = event.slots[j];
    if event.category >= categories {
        return Err(ScheduleError::InconsistentCategoryIndex);
    }
    let layout = match slot_layout(slot, span) {
        Ok(layout) => layout,
        Err(e) => {
            return Err(e);
        },
    };
    let rule = slot_rule(id, slot, layout);
    css.append(rule.as_str());
    let block = slot_block(id, event.category, event.title.as_str());
    html.append(block.as_str());
    Ok(())
}

/// Draws the slots of one event, of which `before` slots come earlier in
/// the schedule, up to the first that has an error.
fn draw_event(
    css: &mut String,
    html: &mut String,
    before: u128,
    event: &Event,
    categories: usize,
    span: WeekSpan,
) -> (drawn: Result<(), ScheduleError>)
    requires
        before + event.slots.len() <= u128::MAX,
    ensures
        ({
            let all = event_placements(event@, before as nat);
            match drawn {
                Ok(_) => {
                    &&& first_error(all, categories as nat, span) is None
                    &&& final(css)@ == old(css)@ + placements_css(all)
                    &&& final(html)@ == old(html)@ + placements_markup(all)
                },
                Err(e) => first_error(all, categories as nat, span) == Some(e),
            }
        }),
{
    let ghost all = event_placements(event@, before as nat);
    let mut j: usize = 0;
    assert(css@ =~= old(css)@ + placements_css(all.take(0)));
    assert(html@ =~= old(html)@ + placements_markup(all.take(0)));
    while j < event.slots.len()
        invariant
            j <= event.slots.len(),
            before + event.slots.len() <= u128::MAX,
            all == event_placements(event@, before as nat),
            first_error(all.take(j as int), categories as nat, span) is None,
            css@ == old(css)@ + placements_css(all.take(j as int)),
            html@ == old(html)@ + placements_markup(all.take(j as int)),
        decreases event.slots.len() - j,
    {
        let ghost shown = all.take(j as int);
        proof {
            lemma_placement_added(shown, all[j as int], categories as nat, span);
            assert(all.take(j + 1) =~= shown.push(all[j as int]));
        }
        match draw_slot(css, html, before + j as u128 + 1, event, j, categories, span) {
            Ok(_) => {},
            Err(e) => {
                proof {
                    lemma_placements_joined(
                        all.take(j + 1),
                        all.skip(j + 1),
                        categories as nat,
                        span,
                    );
                    assert(all.take(j + 1) + all.skip(j + 1) =~= all);
                }
                return Err(e);
            },
        }
        assert(css@ =~= old(css)@ + placements_css(all.take(j + 1)));
        assert(html@ =~= old(html)@ + placements_markup(all.take(j + 1)));
        j += 1;
    }
    assert(all.take(j as int) =~= all);
    Ok(())
}

/// The style rules of the categories of a schedule.
fn category_rules(categories: &Vec<Category>) -> (css: String)
    ensures
        css@ == categories_css(models_of(categories@)),
{
    let ghost models = models_of(categories@);
    let mut css = String::new();
    let mut c: usize = 0;
    while c < categories.len()
        invariant
            c <= categories.len(),
            models == models_of(categories@),
            css@ == categories_css(models.take(c as int)),
        decreases categories.len() - c,
    {
        let rule = category_rule(c, categories[c].colour);
        css.append(rule.as_str());
        proof {
            let upto = models.take(c + 1);
            assert(upto.drop_last() =~= models.take(c as int));
            assert(upto.last() == categories[c as int]@);
        }
        c += 1;
    }
    assert(models.take(c as int) =~= models);
    css
}

/// Renders `sched` into the template `tmpl` for a grid of the given span.
///
/// The result is [`document`] of the three: the template with its style
/// marker `%%STYLE%%` replaced by one colour rule for each category and
/// one placing rule for each slot, and its markup marker `%%HTML%%` by one
/// block for each slot. Slots are numbered from 1 in the order of the
/// schedule. A marker that the template lacks is passed over.
///
/// Fails with the error of the first slot that has one:
/// `InconsistentCategoryIndex` where its event's category is not one of
/// the schedule's, `UnsupportedDay` where the span has no column for its
/// day.
pub fn generate_html(tmpl: &str, sched: &Schedule, span: WeekSpan) -> (doc: Result<
    String,
    ScheduleError,
>)
    ensures
        rendering(doc) == document(tmpl@, sched@, span),
{
    let ghost events = sched@.events;
    let ghost known = sched@.categories.len();
    let mut css = category_rules(&sched.categories);
    let mut html = String::new();
    let mut before: u128 = 0;
    let mut i: usize = 0;
    assert(css@ =~= categories_css(sched@.categories) + placements_css(placements(events.take(0))));
    while i < sched.events.len()
        invariant
            i <= sched.events.len(),
            events == sched@.events,
            events.len() == sched.events.len(),
            known == sched.categories.len(),
            before == placements(events.take(i as int)).len(),
            before <= i * 0xffff_ffff_ffff_ffff,
            css@ == categories_css(sched@.categories) + placements_css(
                placements(events.take(i as int)),
            ),
            html@ == placements_markup(placements(events.take(i as int))),
            first_error(placements(events.take(i as int)), known, span) is None,
        decreases sched.events.len() - i,
    {
        let event = &sched.events[i];
        let ghost done = placements(events.take(i as int));
        let ghost all = event_placements(event@, before as nat);
        proof {
            let upto = events.take(i + 1);
            assert(upto.drop_last() =~= events.take(i as int));
            assert(upto.last() == event@);
            assert(placements(upto) == done + all);
            lemma_placements_joined(done, all, known, span);
        }
        match draw_event(&mut css, &mut html, before, event, sched.categories.len(), span) {
            Ok(_) => {},
            Err(e) => {
                proof {
                    lemma_first_error_stays(events, i + 1, known, span);
                }
                return Err(e);
            },
        }
        assert(css@ =~= categories_css(sched@.categories) + placements_css(done + all));
        before = before + event.slots.len() as u128;
        i += 1;
    }
    assert(events.take(i as int) =~= events);
    let styled = substitute(tmpl, "%%STYLE%%", css.as_str());
    let whole = substitute(styled.as_str(), "%%HTML%%", html.as_str());
    Ok(whole)
}

/// Rendering one schedule into one template twice gives the same
/// document both times, character for character, or the same error.
pub proof fn lemma_rendering_repeats(
    tmpl: Seq<char>,
    sched: ScheduleModel,
    span: WeekSpan,
    first: Result<String, ScheduleError>,
    second: Result<String, ScheduleError>,
)
    requires
        rendering(first) == document(tmpl, sched, span),
        rendering(second) == document(tmpl, sched, span),
    ensures
        rendering(first) == rendering(second),
{
}

/// The slots of a schedule are numbered from 1 without a gap, in the
/// order in which they are drawn.
pub proof fn lemma_placements_numbered(events: Seq<EventModel>)
    ensures
        forall|k: int|
            0 <= k < placements(events).len() ==> (#[trigger] placements(events)[k]).id == k + 1,
    decreases events.len(),
{
    if events.len() > 0 {
        lemma_placements_numbered(events.drop_last());
    }
}

/// Every placement has the category of one of the events.
proof fn lemma_placements_categories(events: Seq<EventModel>, categories: nat)
    requires
        forall|i: int| 0 <= i < events.len() ==> (#[trigger] events[i]).category < categories,
    ensures
        forall|k: int|
            0 <= k < placements(events).len() ==> (#[trigger] placements(events)[k]).category
                < categories,
    decreases events.len(),
{
    if events.len() > 0 {
        let front = events.drop_last();
        assert forall|i: int| 0 <= i < front.len() implies (#[trigger] front[i]).category
            < categories by {
            assert(front[i] == events[i]);
        }
        lemma_placements_categories(front, categories);
        assert(events.last() == events[events.len() - 1]);
    }
}

/// Placements whose categories are all known have no error but a day
/// without a column, and none at all on a grid of the full week.
proof fn lemma_first_error_with_categories(ps: Seq<Placement>, categories: nat, span: WeekSpan)
    requires
        forall|k: int| 0 <= k < ps.len() ==> (#[trigger] ps[k]).category < categories,
    ensures
        first_error(ps, categories, span) is None || first_error(ps, categories, span) == Some(
            ScheduleError::UnsupportedDay,
        ),
        span == WeekSpan::FullWeek ==> first_error(ps, categories, span) is None,
    decreases ps.len(),
{
    if ps.len() > 0 {
        let front = ps.drop_last();
        assert forall|k: int| 0 <= k < front.len() implies (#[trigger] front[k]).category
            < categories by {
            assert(front[k] == ps[k]);
        }
        lemma_first_error_with_categories(front, categories, span);
        assert(ps.last() == ps[ps.len() - 1]);
    }
}

/// A consistent schedule never fails for want of a category: the only
/// error that its rendering can have is `UnsupportedDay`, and on a grid
/// of the full week it has none.
pub proof fn lemma_consistent_schedule_renders(
    tmpl: Seq<char>,
    sched: ScheduleModel,
    span: WeekSpan,
)
    requires
        consistent(sched),
    ensures
        document(tmpl, sched, span) is Ok || document(tmpl, sched, span) == Err::<
            Seq<char>,
            ScheduleError,
        >(ScheduleError::UnsupportedDay),
        span == WeekSpan::FullWeek ==> document(tmpl, sched, span) is Ok,
{
    lemma_placements_categories(sched.events, sched.categories.len());
    lemma_first_error_with_categories(placements(sched.events), sched.categories.len(), span);
}

} // verus!
