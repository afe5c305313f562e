//! SQL of the meta commands (psql-style `:dt`, `:d` and the like).
//!
//! Where a query takes a table, `'$1'` stands for its name as a string literal;
//! the name goes in escaped (see `escape_sql_string_literal`).

use vstd::prelude::*;

verus! {

/// List all tables in the current database
pub const META_QUERY_TABLES: &'static str = r#"
SELECT
    schemaname AS schema,
    tablename AS name,
    tableowner AS owner
FROM pg_catalog.pg_tables
WHERE schemaname NOT IN ('pg_catalog', 'information_schema')
ORDER BY schemaname, tablename
"#;

/// List all schemas
pub const META_QUERY_SCHEMAS: &'static str = r#"
SELECT
    schema_name AS name,
    schema_owner AS owner
FROM information_schema.schemata
WHERE schema_name NOT LIKE 'pg_%'
  AND schema_name != 'information_schema'
ORDER BY schema_name
"#;

/// Describe a table (columns, types, constraints)
pub const META_QUERY_DESCRIBE: &'static str = r#"
SELECT
    c.column_name AS column,
    c.data_type AS type,
    CASE WHEN c.is_nullable = 'YES' THEN 'NULL' ELSE 'NOT NULL' END AS nullable,
    c.column_default AS default,
    CASE WHEN pk.column_name IS NOT NULL THEN 'PK' ELSE '' END AS key
FROM information_schema.columns c
LEFT JOIN (
    SELECT ku.column_name
    FROM information_schema.table_constraints tc
    JOIN information_schema.key_column_usage ku
        ON tc.constraint_name = ku.constraint_name
        AND tc.table_schema = ku.table_schema
    WHERE tc.constraint_type = 'PRIMARY KEY'
      AND tc.table_name = '$1'
) pk ON c.column_name = pk.column_name
WHERE c.table_name = '$1'
ORDER BY c.ordinal_position
"#;

/// List all indexes
pub const META_QUERY_INDEXES: &'static str = r#"
SELECT
    schemaname AS schema,
    tablename AS table,
    indexname AS index,
    indexdef AS definition
FROM pg_catalog.pg_indexes
WHERE schemaname NOT IN ('pg_catalog', 'information_schema')
ORDER BY schemaname, tablename, indexname
"#;

/// List all databases (\l)
pub const META_QUERY_DATABASES: &'static str = r#"
SELECT
    datname AS name,
    pg_catalog.pg_get_userbyid(datdba) AS owner,
    pg_catalog.pg_encoding_to_char(encoding) AS encoding
FROM pg_catalog.pg_database
WHERE datallowconn = true
ORDER BY datname
"#;

/// List all roles/users (\du)
pub const META_QUERY_ROLES: &'static str = r#"
SELECT
    rolname AS role,
    CASE WHEN rolsuper THEN 'Superuser' ELSE '' END AS super,
    CASE WHEN rolcreaterole THEN 'Create role' ELSE '' END AS create_role,
    CASE WHEN rolcreatedb THEN 'Create DB' ELSE '' END AS create_db,
    CASE WHEN rolcanlogin THEN 'Login' ELSE '' END AS login
FROM pg_catalog.pg_roles
WHERE rolname NOT LIKE 'pg_%'
ORDER BY rolname
"#;

/// List all views (\dv)
pub const META_QUERY_VIEWS: &'static str = r#"
SELECT
    schemaname AS schema,
    viewname AS name,
    viewowner AS owner
FROM pg_catalog.pg_views
WHERE schemaname NOT IN ('pg_catalog', 'information_schema')
ORDER BY schemaname, viewname
"#;

/// List all functions (\df)
pub const META_QUERY_FUNCTIONS: &'static str = r#"
SELECT
    n.nspname AS schema,
    p.proname AS name,
    pg_catalog.pg_get_function_result(p.oid) AS result_type,
    pg_catalog.pg_get_function_arguments(p.oid) AS arguments
FROM pg_catalog.pg_proc p
LEFT JOIN pg_catalog.pg_namespace n ON n.oid = p.pronamespace
WHERE n.nspname NOT IN ('pg_catalog', 'information_schema')
ORDER BY n.nspname, p.proname
"#;

/// Get primary key columns for a table
pub const META_QUERY_PRIMARY_KEYS: &'static str = r#"
SELECT ku.column_name
FROM information_schema.table_constraints tc
JOIN information_schema.key_column_usage ku
    ON tc.constraint_name = ku.constraint_name
    AND tc.table_schema = ku.table_schema
WHERE tc.constraint_type = 'PRIMARY KEY'
  AND tc.table_name = '$1'
ORDER BY ku.ordinal_position
"#;

/// Query to fetch column types for a table.
pub const META_QUERY_COLUMN_TYPES: &'static str = r#"
SELECT column_name, data_type
FROM information_schema.columns
WHERE table_name = '$1'
ORDER BY ordinal_position
"#;

} // verus!
