//! Borderless tables, written by `comfy_table`, and the plain text of `list`:
//! a table per reservation directory, the leases in a section of their own,
//! and a closing note when directories are missing.
use vstd::prelude::*;
use vstd::string::*;

use crate::output::{indent, indented, or_dash, text_lines};
use crate::registry::model::{key_view, AllocationModel};
use crate::service::texts;
use crate::text::{decimal_string, decimal_text, str_eq};
use crate::views::{
    lease_view_models, reservation_view_models, LeaseView, LeaseViewModel, ListResult,
    ReservationView, ReservationViewModel,
};

verus! {

/// The cells of each row, as text.
pub open spec fn row_texts(rows: Seq<Vec<String>>) -> Seq<Seq<Seq<char>>> {
    rows.map_values(|row: Vec<String>| texts(row@))
}

pub open spec fn header_texts(header: Option<Vec<String>>) -> Option<Seq<Seq<char>>> {
    match header {
        Some(cells) => Some(texts(cells@)),
        None => None,
    }
}

/// What `comfy_table` writes for a table in the borderless `NOTHING` style
/// with the given header and rows, the columns padded left and right as
/// `paddings` says, each line without trailing white space.
pub uninterp spec fn comfy_columns(
    header: Option<Seq<Seq<char>>>,
    rows: Seq<Seq<Seq<char>>>,
    paddings: Seq<(u16, u16)>,
) -> Seq<char>;

/// Writes a table with `comfy_table`: the `NOTHING` style, the header when
/// one is given, the rows, each column's padding from `paddings`, and
/// `Table::trim_fmt` for the text. The contract names the text
/// `comfy_columns`; the table's content arrangement is the default, which
/// does not depend on the terminal.
#[verifier::external_body]
fn render_table(header: &Option<Vec<String>>, rows: &Vec<Vec<String>>, paddings: &Vec<(u16, u16)>) -> (text: String)
    ensures
        text@ == comfy_columns(header_texts(*header), row_texts(rows@), paddings@),
{
    let mut table = comfy_table::Table::new();
    table.load_style(comfy_table::presets::NOTHING);
    if let Some(cells) = header {
        table.set_header(cells.clone());
    }
    table.add_rows(rows.clone());
    for (column, padding) in table.column_iter_mut().zip(paddings.iter()) {
        column.set_padding(*padding);
    }
    table.trim_fmt()
}

/// The number of cells of the widest row.
pub open spec fn widest(rows: Seq<Seq<Seq<char>>>) -> nat
    decreases rows.len(),
{
    if rows.len() == 0 {
        0
    } else {
        let before = widest(rows.drop_last());
        if rows.last().len() > before {
            rows.last().len()
        } else {
            before
        }
    }
}

/// The columns of a table: as many as its header or widest row has cells.
pub open spec fn column_count(header: Option<Seq<Seq<char>>>, rows: Seq<Seq<Seq<char>>>) -> nat {
    match header {
        Some(cells) => if cells.len() > widest(rows) {
            cells.len()
        } else {
            widest(rows)
        },
        None => widest(rows),
    }
}

/// Two spaces after every column but the last.
pub open spec fn column_paddings(count: nat) -> Seq<(u16, u16)> {
    Seq::new(count, |i: int| if i == count - 1 { (0u16, 0u16) } else { (0u16, 2u16) })
}

/// The text of a borderless table with two spaces between columns.
pub open spec fn table_text(header: Option<Seq<Seq<char>>>, rows: Seq<Seq<Seq<char>>>) -> Seq<char> {
    comfy_columns(header, rows, column_paddings(column_count(header, rows)))
}

/// A borderless table with two spaces between its columns and no trailing
/// white space.
pub fn render_columns(header: &Option<Vec<String>>, rows: &Vec<Vec<String>>) -> (text: String)
    ensures
        text@ == table_text(header_texts(*header), row_texts(rows@)),
{
    let ghost cells = row_texts(rows@);
    let mut width: usize = 0;
    let mut i: usize = 0;
    while i < rows.len()
        invariant
            i <= rows@.len(),
            cells == row_texts(rows@),
            width == widest(cells.take(i as int)),
        decreases rows@.len() - i,
    {
        assert(cells.take(i + 1).drop_last() =~= cells.take(i as int));
        assert(cells.take(i + 1).last() == texts(rows@[i as int]@));
        if rows[i].len() > width {
            width = rows[i].len();
        }
        i = i + 1;
    }
    assert(cells.take(i as int) =~= cells);
    let count: usize = match header {
        Some(h) => if h.len() > width {
            h.len()
        } else {
            width
        },
        None => width,
    };
    let mut paddings: Vec<(u16, u16)> = Vec::new();
    let mut k: usize = 0;
    while k < count
        invariant
            k <= count,
            count == column_count(header_texts(*header), cells),
            paddings@ =~= column_paddings(count as nat).take(k as int),
        decreases count - k,
    {
        if k + 1 == count {
            paddings.push((0, 0));
        } else {
            paddings.push((0, 2));
        }
        k = k + 1;
    }
    assert(column_paddings(count as nat).take(count as int) =~= column_paddings(count as nat));
    render_table(header, rows, &paddings)
}

/// `parts` separated by `separator`.
pub open spec fn text_join(parts: Seq<Seq<char>>, separator: Seq<char>) -> Seq<char>
    decreases parts.len(),
{
    if parts.len() == 0 {
        Seq::empty()
    } else if parts.len() == 1 {
        parts[0]
    } else {
        text_join(parts.drop_last(), separator) + separator + parts.last()
    }
}

/// The strings of `parts` separated by `separator`.
pub fn join_strings(parts: &Vec<String>, separator: &str) -> (text: String)
    ensures
        text@ == text_join(texts(parts@), separator@),
{
    let ghost all = texts(parts@);
    let mut text = String::new();
    let mut i: usize = 0;
    while i < parts.len()
        invariant
            i <= parts@.len(),
            all == texts(parts@),
            text@ == text_join(all.take(i as int), separator@),
        decreases parts@.len() - i,
    {
        assert(all.take(i + 1).drop_last() =~= all.take(i as int));
        assert(all.take(i + 1).last() == parts@[i as int]@);
        if i > 0 {
            text.append(separator);
        } else {
            assert(all.take(i as int).len() == 0);
        }
        text.append(parts[i].as_str());
        proof {
            if i == 0 {
                assert(text@ =~= all.take(1)[0]);
            }
        }
        i = i + 1;
    }
    assert(all.take(i as int) =~= all);
    text
}

// ---------------------------------------------------------------------
// list
// ---------------------------------------------------------------------
/// `port` was probed and found bound.
pub open spec fn port_in_use(in_use: Seq<(u16, bool)>, port: u16) -> bool {
    exists|i: int| 0 <= i < in_use.len() && in_use[i] == (port, true)
}

/// `in use` for a bound port, else nothing.
pub open spec fn in_use_text(in_use: Seq<(u16, bool)>, port: u16) -> Seq<char> {
    if port_in_use(in_use, port) {
        "in use"@
    } else {
        Seq::empty()
    }
}

/// The row of one allocation: key, port, `reserved`, and `in use` when bound.
pub open spec fn allocation_row(a: AllocationModel, in_use: Seq<(u16, bool)>) -> Seq<Seq<char>> {
    seq![or_dash(a.key), decimal_text(a.port as nat), "reserved"@, in_use_text(in_use, a.port)]
}

/// The notes after a directory: `missing`, and its expiration.
pub open spec fn reservation_notes(view: ReservationViewModel, expiry: Seq<char>) -> Seq<Seq<char>> {
    (if view.status == "missing"@ {
        seq!["missing"@]
    } else {
        Seq::empty()
    }) + (if view.expires_at is Some {
        seq!["expires "@ + expiry]
    } else {
        Seq::empty()
    })
}

/// The directory, followed by its notes in parentheses when it has any.
pub open spec fn reservation_header(view: ReservationViewModel, expiry: Seq<char>) -> Seq<char> {
    let notes = reservation_notes(view, expiry);
    if notes.len() == 0 {
        view.directory
    } else {
        view.directory + "  ("@ + text_join(notes, ", "@) + ")"@
    }
}

/// A title line followed by its table, indented by two spaces.
pub open spec fn section(title: Seq<char>, rows: Seq<Seq<Seq<char>>>) -> Seq<char> {
    title + "\n"@ + indented(text_lines(table_text(None, rows)))
}

pub open spec fn reservation_section(
    view: ReservationViewModel,
    expiry: Seq<char>,
    in_use: Seq<(u16, bool)>,
) -> Seq<char> {
    section(
        reservation_header(view, expiry),
        view.allocations.map_values(|a: AllocationModel| allocation_row(a, in_use)),
    )
}

/// The row of one lease: key, port, status, then `in use` when bound and its
/// expiration.
pub open spec fn lease_row(view: LeaseViewModel, expiry: Seq<char>, in_use: Seq<(u16, bool)>) -> Seq<Seq<char>> {
    let notes = (if port_in_use(in_use, view.lease.port) {
        seq!["in use"@]
    } else {
        Seq::empty()
    }) + seq!["expires "@ + expiry];
    seq![or_dash(view.lease.key), decimal_text(view.lease.port as nat), view.status, text_join(notes, ", "@)]
}

pub open spec fn leases_section(
    leases: Seq<LeaseViewModel>,
    expiries: Seq<Seq<char>>,
    in_use: Seq<(u16, bool)>,
) -> Seq<char> {
    section("leases"@, Seq::new(leases.len(), |i: int| lease_row(leases[i], expiries[i], in_use)))
}

/// The number of views whose directory is missing.
pub open spec fn missing_count(views: Seq<ReservationViewModel>) -> nat
    decreases views.len(),
{
    if views.len() == 0 {
        0
    } else {
        missing_count(views.drop_last()) + if views.last().status == "missing"@ {
            1nat
        } else {
            0nat
        }
    }
}

/// The closing note on missing directories, when there are any.
pub open spec fn missing_note(count: nat) -> Seq<char> {
    if count == 0 {
        Seq::empty()
    } else {
        "\n\n"@ + decimal_text(count) + " reservation director"@ + (if count == 1 {
            "y is"@
        } else {
            "ies are"@
        }) + " missing; run `porta clean` to reap after the grace period"@
    }
}

/// The plain text of `list`: a section per reservation, then one for the
/// leases when there are any, separated by blank lines, and the note on
/// missing directories. `reservation_expiry[i]` and `lease_expiry[i]` are the
/// local texts of the expirations.
pub open spec fn list_text_of(
    reservations: Seq<ReservationViewModel>,
    leases: Seq<LeaseViewModel>,
    in_use: Seq<(u16, bool)>,
    reservation_expiry: Seq<Seq<char>>,
    lease_expiry: Seq<Seq<char>>,
) -> Seq<char> {
    let sections = Seq::new(
        reservations.len(),
        |i: int| reservation_section(reservations[i], reservation_expiry[i], in_use),
    ) + (if leases.len() > 0 {
        seq![leases_section(leases, lease_expiry, in_use)]
    } else {
        Seq::empty()
    });
    text_join(sections, "\n\n"@) + missing_note(missing_count(reservations))
}

fn is_in_use(in_use: &Vec<(u16, bool)>, port: u16) -> (bound: bool)
    ensures
        bound == port_in_use(in_use@, port),
{
    let mut i: usize = 0;
    while i < in_use.len()
        invariant
            i <= in_use@.len(),
            forall|k: int| 0 <= k < i ==> in_use@[k] != (port, true),
        decreases in_use@.len() - i,
    {
        if in_use[i].0 == port && in_use[i].1 {
            assert(in_use@[i as int] == (port, true));
            return true;
        }
        i = i + 1;
    }
    false
}

fn dash_or(key: &Option<String>) -> (text: String)
    ensures
        text@ == or_dash(key_view(*key)),
{
    match key {
        Some(k) => k.clone(),
        None => {
            let dash = String::from_str("-");
            proof {
                reveal_strlit("-");
            }
            assert(dash@ =~= seq!['-']);
            dash
        },
    }
}

fn in_use_cell(in_use: &Vec<(u16, bool)>, port: u16) -> (text: String)
    ensures
        text@ == in_use_text(in_use@, port),
{
    if is_in_use(in_use, port) {
        String::from_str("in use")
    } else {
        String::new()
    }
}

fn concat(a: &str, b: &str) -> (text: String)
    ensures
        text@ == a@ + b@,
{
    let mut text = String::from_str(a);
    text.append(b);
    text
}

fn section_text(title: String, rows: &Vec<Vec<String>>) -> (text: String)
    ensures
        text@ == section(title@, row_texts(rows@)),
{
    let table = render_columns(&None, rows);
    let body = indent(table.as_str());
    let mut text = title;
    text.append("\n");
    text.append(body.as_str());
    text
}

fn reservation_section_text(view: &ReservationView, expiry: &String, in_use: &Vec<(u16, bool)>) -> (text: String)
    ensures
        text@ == reservation_section(view@, expiry@, in_use@),
{
    let ghost model = view@;
    let mut notes: Vec<String> = Vec::new();
    let missing = str_eq(view.status.as_str(), "missing");
    if missing {
        notes.push(String::from_str("missing"));
    }
    if view.expires_at.is_some() {
        notes.push(concat("expires ", expiry.as_str()));
    }
    assert(texts(notes@) =~= reservation_notes(model, expiry@));
    let mut header = view.directory.clone();
    if notes.len() > 0 {
        header.append("  (");
        let joined = join_strings(&notes, ", ");
        header.append(joined.as_str());
        header.append(")");
    }
    assert(header@ =~= reservation_header(model, expiry@));
    let ghost wanted = model.allocations.map_values(|a: AllocationModel| allocation_row(a, in_use@));
    let mut rows: Vec<Vec<String>> = Vec::new();
    let mut k: usize = 0;
    while k < view.allocations.len()
        invariant
            k <= view.allocations@.len(),
            model == view@,
            wanted == model.allocations.map_values(|a: AllocationModel| allocation_row(a, in_use@)),
            row_texts(rows@) =~= wanted.take(k as int),
        decreases view.allocations@.len() - k,
    {
        let allocation = &view.allocations[k];
        let mut row: Vec<String> = Vec::new();
        row.push(dash_or(&allocation.key));
        row.push(decimal_string(allocation.port as u64));
        row.push(String::from_str("reserved"));
        row.push(in_use_cell(in_use, allocation.port));
        assert(model.allocations[k as int] == allocation@);
        assert(texts(row@) =~= allocation_row(allocation@, in_use@));
        let ghost old_rows = rows@;
        rows.push(row);
        assert(row_texts(rows@) =~= row_texts(old_rows).push(texts(row@)));
        assert(wanted.take(k + 1) =~= wanted.take(k as int).push(wanted[k as int]));
        k = k + 1;
    }
    assert(wanted.take(k as int) =~= wanted);
    section_text(header, &rows)
}

fn lease_row_cells(view: &LeaseView, expiry: &String, in_use: &Vec<(u16, bool)>) -> (row: Vec<String>)
    ensures
        texts(row@) =~= lease_row(view@, expiry@, in_use@),
{
    let mut notes: Vec<String> = Vec::new();
    if is_in_use(in_use, view.port) {
        notes.push(String::from_str("in use"));
    }
    notes.push(concat("expires ", expiry.as_str()));
    let ghost wanted_notes = (if port_in_use(in_use@, view.port) {
        seq!["in use"@]
    } else {
        Seq::<Seq<char>>::empty()
    }) + seq!["expires "@ + expiry@];
    assert(texts(notes@) =~= wanted_notes);
    let mut row: Vec<String> = Vec::new();
    row.push(dash_or(&view.key));
    row.push(decimal_string(view.port as u64));
    row.push(view.status.clone());
    row.push(join_strings(&notes, ", "));
    row
}

/// The plain text of `list` for `listing`: `in_use` holds the probed ports
/// and whether each was bound, `reservation_expiry[i]` and `lease_expiry[i]`
/// the local texts of the expirations of reservation and lease `i`.
pub fn list_text(
    listing: &ListResult,
    in_use: &Vec<(u16, bool)>,
    reservation_expiry: &Vec<String>,
    lease_expiry: &Vec<String>,
) -> (text: String)
    requires
        reservation_expiry@.len() == listing.reservations@.len(),
        lease_expiry@.len() == listing.leases@.len(),
    ensures
        text@ == list_text_of(
            reservation_view_models(listing.reservations@),
            lease_view_models(listing.leases@),
            in_use@,
            texts(reservation_expiry@),
            texts(lease_expiry@),
        ),
{
    let ghost views = reservation_view_models(listing.reservations@);
    let ghost leases = lease_view_models(listing.leases@);
    let ghost rexp = texts(reservation_expiry@);
    let ghost lexp = texts(lease_expiry@);
    let ghost wanted = Seq::new(
        views.len(),
        |i: int| reservation_section(views[i], rexp[i], in_use@),
    );
    let mut sections: Vec<String> = Vec::new();
    let mut missing: u64 = 0;
    let mut i: usize = 0;
    while i < listing.reservations.len()
        invariant
            i <= listing.reservations@.len(),
            reservation_expiry@.len() == listing.reservations@.len(),
            views == reservation_view_models(listing.reservations@),
            rexp == texts(reservation_expiry@),
            wanted == Seq::new(views.len(), |i: int| reservation_section(views[i], rexp[i], in_use@)),
            texts(sections@) =~= wanted.take(i as int),
            missing == missing_count(views.take(i as int)),
            missing <= i,
        decreases listing.reservations@.len() - i,
    {
        let view = &listing.reservations[i];
        assert(views[i as int] == view@);
        let section = reservation_section_text(view, &reservation_expiry[i], in_use);
        let ghost old_sections = sections@;
        sections.push(section);
        assert(texts(sections@) =~= texts(old_sections).push(section@));
        assert(wanted.take(i + 1) =~= wanted.take(i as int).push(wanted[i as int]));
        assert(rexp[i as int] == reservation_expiry@[i as int]@);
        assert(views.take(i + 1).drop_last() =~= views.take(i as int));
        if str_eq(view.status.as_str(), "missing") {
            missing = missing + 1;
        }
        i = i + 1;
    }
    assert(wanted.take(i as int) =~= wanted);
    assert(views.take(i as int) =~= views);
    let ghost lease_part: Seq<Seq<char>> = if leases.len() > 0 {
        seq![leases_section(leases, lexp, in_use@)]
    } else {
        Seq::empty()
    };
    if listing.leases.len() > 0 {
        let ghost lease_rows = Seq::new(leases.len(), |k: int| lease_row(leases[k], lexp[k], in_use@));
        let mut rows: Vec<Vec<String>> = Vec::new();
        let mut k: usize = 0;
        while k < listing.leases.len()
            invariant
                k <= listing.leases@.len(),
                lease_expiry@.len() == listing.leases@.len(),
                leases == lease_view_models(listing.leases@),
                lexp == texts(lease_expiry@),
                lease_rows == Seq::new(leases.len(), |k: int| lease_row(leases[k], lexp[k], in_use@)),
                row_texts(rows@) =~= lease_rows.take(k as int),
            decreases listing.leases@.len() - k,
        {
            assert(leases[k as int] == listing.leases@[k as int]@);
            let row = lease_row_cells(&listing.leases[k], &lease_expiry[k], in_use);
            let ghost old_rows = rows@;
            rows.push(row);
            assert(row_texts(rows@) =~= row_texts(old_rows).push(texts(row@)));
            assert(lease_rows.take(k + 1) =~= lease_rows.take(k as int).push(lease_rows[k as int]));
            assert(lexp[k as int] == lease_expiry@[k as int]@);
            k = k + 1;
        }
        assert(lease_rows.take(k as int) =~= lease_rows);
        let title = String::from_str("leases");
        let section = section_text(title, &rows);
        sections.push(section);
    }
    assert(texts(sections@) =~= wanted + lease_part);
    let mut text = join_strings(&sections, "\n\n");
    if missing > 0 {
        text.append("\n\n");
        text.append(decimal_string(missing).as_str());
        text.append(" reservation director");
        if missing == 1 {
            text.append("y is");
        } else {
            text.append("ies are");
        }
        text.append(" missing; run `porta clean` to reap after the grace period");
    }
    text
}

} // verus!
