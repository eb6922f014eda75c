//! Sync-side schema: the triggers that capture every local change.
//!
//! Capture is done with triggers rather than calls inside each command so
//! that a command added later cannot forget to record what it changed.
use vstd::prelude::*;
use crate::sync::model::{EntitySpec, EntitySpecView, FieldKind, FieldKindView, FieldSpecView, Identity};
use crate::sync::row::{known_ref, ref_table, refs_known, spec_ref_table};

verus! {

/// Key whose presence in `sync_meta` disables the capture triggers. Set while
/// applying remote ops and during migrations, so replaying another device's
/// changes does not echo them back into our own log.
pub const SUSPEND_KEY: &'static str = "suspend_capture";

/// One reference field's part of a composite key: the uuid of the row it
/// points at, for the trigger row `row` (`NEW` or `OLD`).
pub open spec fn key_part(f: FieldSpecView, row: Seq<char>) -> Seq<char> {
    "(SELECT uuid FROM "@ + spec_ref_table(f.kind) + " WHERE id = "@ + row + "."@ + f.column + ")"@
}

/// The key parts of the reference fields among `fields`, joined by `:`.
pub open spec fn key_parts(fields: Seq<FieldSpecView>, row: Seq<char>) -> Seq<char>
    decreases fields.len(),
{
    if fields.len() == 0 {
        Seq::empty()
    } else {
        let rest = key_parts(fields.drop_last(), row);
        let f = fields.last();
        if f.kind is Ref {
            if rest.len() == 0 {
                key_part(f, row)
            } else {
                rest + " || ':' || "@ + key_part(f, row)
            }
        } else {
            rest
        }
    }
}

/// SQL expression building a join row's composite uuid from the two rows it
/// links.
pub fn composite_key(spec: &EntitySpec, row: &str) -> (s: String)
    requires
        refs_known(spec@),
    ensures
        s@ == key_parts(spec@.fields, row@),
{
    let mut s = String::new();
    let mut any = false;
    let mut i: usize = 0;
    while i < spec.fields.len()
        invariant
            i <= spec.fields.len(),
            refs_known(spec@),
            s@ == key_parts(spec@.fields.take(i as int), row@),
            any == (s@.len() > 0),
        decreases spec.fields.len() - i,
    {
        let f = spec.fields[i];
        proof {
            assert(spec@.fields.take(i + 1).drop_last() =~= spec@.fields.take(i as int));
            assert(spec@.fields.take(i + 1).last() == f@);
            assert(spec@.fields[i as int] == f@);
            reveal_strlit("(SELECT uuid FROM ");
        }
        match f.kind {
            FieldKind::Ref(_) => {
                let table = ref_table(&f.kind);
                if any {
                    s.append(" || ':' || ");
                }
                s.append("(SELECT uuid FROM ");
                s.append(table);
                s.append(" WHERE id = ");
                s.append(row);
                s.append(".");
                s.append(f.column);
                s.append(")");
                any = true;
            },
            FieldKind::Scalar => {},
        }
        assert(s@ =~= key_parts(spec@.fields.take(i + 1), row@));
        i = i + 1;
    }
    assert(spec@.fields.take(spec.fields.len() as int) =~= spec@.fields);
    s
}

/// The condition every capture trigger carries: capture is not suspended.
pub open spec fn guard_text() -> Seq<char> {
    "WHEN NOT EXISTS (SELECT 1 FROM sync_meta WHERE key = '"@ + SUSPEND_KEY@ + "')"@
}

pub open spec fn drop_triggers_text(table: Seq<char>) -> Seq<char> {
    "DROP TRIGGER IF EXISTS sync_ai_"@ + table + ";\n"@ + "DROP TRIGGER IF EXISTS sync_au_"@ + table + ";\n"@
        + "DROP TRIGGER IF EXISTS sync_ad_"@ + table + ";\n"@
}

/// The opening of a capture trigger: `sync_<tag>_<table>`, firing after
/// `event` on the table while capture is not suspended.
pub open spec fn trigger_head(tag: Seq<char>, table: Seq<char>, event: Seq<char>) -> Seq<char> {
    "CREATE TRIGGER sync_"@ + tag + "_"@ + table + " AFTER "@ + event + " ON "@ + table + " "@ + guard_text()
        + "\nBEGIN\n"@
}

/// A statement queueing a row by local id as upserted.
pub open spec fn queue_by_id(name: Seq<char>) -> Seq<char> {
    "    INSERT INTO sync_outbox(entity, local_id, kind) VALUES ('"@ + name + "', NEW.id, 'upsert');\n"@
}

/// A statement queueing a row by uuid, with the given kind.
pub open spec fn queue_by_uuid(name: Seq<char>, uuid_expr: Seq<char>, kind: Seq<char>) -> Seq<char> {
    "    INSERT INTO sync_outbox(entity, uuid, kind) VALUES ('"@ + name + "', "@ + uuid_expr + ", '"@ + kind
        + "');\n"@
}

/// A statement giving a freshly inserted row a uuid if it has none.
pub open spec fn mint_uuid(table: Seq<char>) -> Seq<char> {
    "    UPDATE "@ + table + " SET uuid = lower(hex(randomblob(16))) WHERE id = NEW.id AND uuid IS NULL;\n"@
}

pub open spec fn trigger_text(head: Seq<char>, body: Seq<char>) -> Seq<char> {
    head + body + "END;\n"@
}

/// The capture triggers of a table whose rows carry their own uuid: an
/// insert mints the uuid and queues the row, an update queues it, a delete
/// queues its uuid as deleted.
pub open spec fn uuid_triggers_text(table: Seq<char>, name: Seq<char>) -> Seq<char> {
    trigger_text(trigger_head("ai"@, table, "INSERT"@), mint_uuid(table) + queue_by_id(name)) + trigger_text(
        trigger_head("au"@, table, "UPDATE"@),
        queue_by_id(name),
    ) + trigger_text(trigger_head("ad"@, table, "DELETE"@), queue_by_uuid(name, "OLD.uuid"@, "delete"@))
}

/// The capture triggers of a join table: an insert queues the composite
/// uuid as upserted, a delete as deleted.
pub open spec fn composite_triggers_text(table: Seq<char>, name: Seq<char>, new_key: Seq<char>, old_key: Seq<char>) -> Seq<
    char,
> {
    trigger_text(trigger_head("ai"@, table, "INSERT"@), queue_by_uuid(name, new_key, "upsert"@)) + trigger_text(
        trigger_head("ad"@, table, "DELETE"@),
        queue_by_uuid(name, old_key, "delete"@),
    )
}

/// The script that (re)creates an entity's capture triggers.
pub open spec fn triggers_text(spec: EntitySpecView) -> Seq<char> {
    drop_triggers_text(spec.table) + match spec.identity {
        Identity::Uuid => uuid_triggers_text(spec.table, spec.name),
        Identity::Composite => composite_triggers_text(
            spec.table,
            spec.name,
            key_parts(spec.fields, "NEW"@),
            key_parts(spec.fields, "OLD"@),
        ),
    }
}

fn guard() -> (s: String)
    ensures
        s@ == guard_text(),
{
    let mut s = String::new();
    s.append("WHEN NOT EXISTS (SELECT 1 FROM sync_meta WHERE key = '");
    s.append(SUSPEND_KEY);
    s.append("')");
    s
}

fn head(tag: &str, table: &str, event: &str) -> (s: String)
    ensures
        s@ == trigger_head(tag@, table@, event@),
{
    let g = guard();
    let mut s = String::new();
    s.append("CREATE TRIGGER sync_");
    s.append(tag);
    s.append("_");
    s.append(table);
    s.append(" AFTER ");
    s.append(event);
    s.append(" ON ");
    s.append(table);
    s.append(" ");
    s.append(g.as_str());
    s.append("\nBEGIN\n");
    s
}

fn by_id(name: &str) -> (s: String)
    ensures
        s@ == queue_by_id(name@),
{
    let mut s = String::new();
    s.append("    INSERT INTO sync_outbox(entity, local_id, kind) VALUES ('");
    s.append(name);
    s.append("', NEW.id, 'upsert');\n");
    s
}

fn by_uuid(name: &str, uuid_expr: &str, kind: &str) -> (s: String)
    ensures
        s@ == queue_by_uuid(name@, uuid_expr@, kind@),
{
    let mut s = String::new();
    s.append("    INSERT INTO sync_outbox(entity, uuid, kind) VALUES ('");
    s.append(name);
    s.append("', ");
    s.append(uuid_expr);
    s.append(", '");
    s.append(kind);
    s.append("');\n");
    s
}

fn mint(table: &str) -> (s: String)
    ensures
        s@ == mint_uuid(table@),
{
    let mut s = String::new();
    s.append("    UPDATE ");
    s.append(table);
    s.append(" SET uuid = lower(hex(randomblob(16))) WHERE id = NEW.id AND uuid IS NULL;\n");
    s
}

fn push_trigger(sql: &mut String, head: String, body: String)
    ensures
        final(sql)@ == old(sql)@ + trigger_text(head@, body@),
{
    sql.append(head.as_str());
    sql.append(body.as_str());
    sql.append("END;\n");
    assert(final(sql)@ =~= old(sql)@ + trigger_text(head@, body@));
}

fn drops(table: &str) -> (s: String)
    ensures
        s@ == drop_triggers_text(table@),
{
    let mut sql = String::new();
    sql.append("DROP TRIGGER IF EXISTS sync_ai_");
    sql.append(table);
    sql.append(";\n");
    sql.append("DROP TRIGGER IF EXISTS sync_au_");
    sql.append(table);
    sql.append(";\n");
    sql.append("DROP TRIGGER IF EXISTS sync_ad_");
    sql.append(table);
    sql.append(";\n");
    sql
}

/// The SQL script that (re)creates an entity's change-capture triggers.
pub fn triggers_for(spec: &EntitySpec) -> (sql: String)
    requires
        refs_known(spec@),
    ensures
        sql@ == triggers_text(spec@),
{
    let table = spec.table;
    let name = spec.name;
    let mut sql = drops(table);
    let ghost start = sql@;
    match spec.identity {
        Identity::Uuid => {
            let mut body = mint(table);
            let q = by_id(name);
            body.append(q.as_str());
            push_trigger(&mut sql, head("ai", table, "INSERT"), body);
            push_trigger(&mut sql, head("au", table, "UPDATE"), by_id(name));
            push_trigger(&mut sql, head("ad", table, "DELETE"), by_uuid(name, "OLD.uuid", "delete"));
            assert(sql@ =~= start + uuid_triggers_text(table@, name@));
        },
        Identity::Composite => {
            let new_key = composite_key(spec, "NEW");
            let old_key = composite_key(spec, "OLD");
            push_trigger(&mut sql, head("ai", table, "INSERT"), by_uuid(name, new_key.as_str(), "upsert"));
            push_trigger(&mut sql, head("ad", table, "DELETE"), by_uuid(name, old_key.as_str(), "delete"));
            assert(sql@ =~= start + composite_triggers_text(
                table@,
                name@,
                key_parts(spec@.fields, "NEW"@),
                key_parts(spec@.fields, "OLD"@),
            ));
        },
    }
    sql
}

} // verus!
