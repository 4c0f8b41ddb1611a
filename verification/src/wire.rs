//! The request/response data model of the wire protocol, as plain
//! values: what a framed message carries once decoded. The byte framing
//! and its serialization live with the process around the engine; these
//! types are what the handler and the client library exchange.
use crate::row::Row;
use crate::schema::TableSchema;
use crate::value::Value;
use vstd::prelude::*;

verus! {

/// A point read: one hash key and one sort key.
pub struct GetRequest {
    pub hash_key: String,
    pub sort_key: Value,
}

impl GetRequest {
    /// An empty read request.
    pub fn new() -> (r: GetRequest)
        ensures
            r.hash_key@.len() == 0,
            r.sort_key == Value::Null,
    {
        GetRequest { hash_key: String::new(), sort_key: Value::Null }
    }
}

/// A write: the key pair and the named values.
pub struct InsertRequest {
    pub hash_key: String,
    pub sort_key: Value,
    pub values: Vec<(String, Value)>,
}

impl InsertRequest {
    /// An empty write request.
    pub fn new() -> (r: InsertRequest)
        ensures
            r.hash_key@.len() == 0,
            r.sort_key == Value::Null,
            r.values@.len() == 0,
    {
        InsertRequest { hash_key: String::new(), sort_key: Value::Null, values: Vec::new() }
    }
}

/// A point delete: one hash key and one sort key.
pub struct DeleteRequest {
    pub hash_key: String,
    pub sort_key: Value,
}

impl DeleteRequest {
    /// An empty delete request.
    pub fn new() -> (r: DeleteRequest)
        ensures
            r.hash_key@.len() == 0,
            r.sort_key == Value::Null,
    {
        DeleteRequest { hash_key: String::new(), sort_key: Value::Null }
    }
}

/// The kind of a request, as the wire tags it.
pub enum RequestType {
    Get,
    GetMany,
    Insert,
    Delete,
    Batch,
    BeginTransaction,
    CommitTransaction,
    AbortTransaction,
    SyncModel,
    DropTable,
}

/// One element of a heterogeneous batch.
pub enum BatchItemData {
    Insert(InsertRequest),
    Delete(DeleteRequest),
}

/// The typed payload of a request.
pub enum RequestData {
    Get(GetRequest),
    GetMany(Vec<GetRequest>),
    Insert(InsertRequest),
    Delete(DeleteRequest),
    Batch(Vec<BatchItemData>),
    BeginTransaction,
    CommitTransaction,
    AbortTransaction,
    SyncModel(String),
    DropTable(String),
}

/// One decoded client request: the table addressed, the transaction it
/// runs under if any, and its payload.
pub struct Request {
    pub table: String,
    pub transaction_id: Option<u64>,
    pub data: Option<RequestData>,
}

impl Request {
    /// An empty request.
    pub fn new() -> (r: Request)
        ensures
            r.table@.len() == 0,
            r.transaction_id is None,
            r.data is None,
    {
        Request { table: String::new(), transaction_id: None, data: None }
    }
}

/// One returned row, as a response carries it.
pub struct GetResponse {
    pub hash_key: String,
    pub sort_key: Value,
    pub values: Vec<(String, Value)>,
}

/// A request the server rejected as the client's fault.
pub struct ClientError {
    pub detail: String,
}

/// A request that failed on the server's side.
pub struct ServerError {
    pub detail: String,
}

/// The typed payload of a response.
pub enum ProtoResponseData {
    Get(GetResponse),
    GetMany(Vec<GetResponse>),
    Insert,
    Delete(bool),
    Batch(bool),
    Transaction(u64),
    SyncModel,
    DropTable,
    ClientError(ClientError),
    ServerError(ServerError),
}

/// One response frame's payload; an absent payload stands for an absent
/// row.
pub struct ProtoResponse {
    pub data: Option<ProtoResponseData>,
}

/// Wraps a client-fault message as a response.
pub fn client_error_to_proto_response(error: String) -> (r: ProtoResponse)
    ensures
        r.data matches Some(d) && (d matches ProtoResponseData::ClientError(ce) && ce.detail
            == error),
{
    ProtoResponse { data: Some(ProtoResponseData::ClientError(ClientError { detail: error })) }
}

/// What a record type gives the client library: its table's name and
/// schema, and how it moves between itself and the wire shapes. Users of
/// the library implement this for their own record types.
pub trait Model: Sized {
    fn from_get_response(get_response: GetResponse) -> Self;

    fn to_insert_request(&self) -> InsertRequest;

    fn to_delete_request(&self) -> DeleteRequest;

    fn hash_key(&self) -> String;

    fn table_name() -> String;

    fn table_schema() -> TableSchema;
}

/// Builds a read request from a key pair.
pub fn create_get_request(hash_key: String, sort_key: Value) -> (r: GetRequest)
    ensures
        r.hash_key == hash_key,
        r.sort_key == sort_key,
{
    GetRequest { hash_key, sort_key }
}

/// Builds a delete request from a key pair.
pub fn create_delete_request(hash_key: String, sort_key: Value) -> (r: DeleteRequest)
    ensures
        r.hash_key == hash_key,
        r.sort_key == sort_key,
{
    DeleteRequest { hash_key, sort_key }
}

/// The hash key a batch element addresses.
pub fn get_batch_item_hash_key(batch_item: &BatchItem) -> (r: String)
    ensures
        r@ == match *batch_item {
            BatchItem::Insert(ref insert) => insert.hash_key@,
            BatchItem::Delete(ref delete) => delete.hash_key@,
        },
{
    match batch_item {
        BatchItem::Insert(insert) => insert.hash_key.clone(),
        BatchItem::Delete(delete) => delete.hash_key.clone(),
    }
}

/// One element of a batch a client builds.
pub enum BatchItem {
    Insert(InsertRequest),
    Delete(DeleteRequest),
}

/// A client-side batch of writes against one record type.
pub struct Batch {
    pub items: Vec<BatchItem>,
}

impl Batch {
    /// An empty batch.
    pub fn new() -> (r: Batch)
        ensures
            r.items@.len() == 0,
    {
        Batch { items: Vec::new() }
    }

    /// Adds a record's insert to the batch.
    pub fn insert<T: Model>(&mut self, instance: T)
        ensures
            final(self).items@.len() == old(self).items@.len() + 1,
    {
        let insert_request = instance.to_insert_request();
        self.items.push(BatchItem::Insert(insert_request));
    }

    /// Adds a keyed delete to the batch.
    pub fn delete(&mut self, hash_key: String, sort_key: Value)
        ensures
            final(self).items@.len() == old(self).items@.len() + 1,
    {
        let delete_request = create_delete_request(hash_key, sort_key);
        self.items.push(BatchItem::Delete(delete_request));
    }
}

/// A client-side list of reads against one record type.
pub struct GetMany {
    pub items: Vec<GetRequest>,
}

impl GetMany {
    /// An empty read list.
    pub fn new() -> (r: GetMany)
        ensures
            r.items@.len() == 0,
    {
        GetMany { items: Vec::new() }
    }

    /// Adds a keyed read to the list.
    pub fn add(&mut self, hash_key: String, sort_key: Value)
        ensures
            final(self).items@.len() == old(self).items@.len() + 1,
    {
        self.items.push(create_get_request(hash_key, sort_key));
    }
}

/// How a client-side call fails: rejected by the server as the caller's
/// fault, or failed on the server's side.
pub enum ConnectionError {
    Client(String),
    Server(String),
}

/// Turns a stored row into the shape a response carries.
pub fn row_to_get_response(row: Row) -> (r: GetResponse)
    ensures
        r.hash_key == row.hash_key,
        r.sort_key == row.sort_key,
        r.values == row.values,
{
    GetResponse { hash_key: row.hash_key, sort_key: row.sort_key, values: row.values }
}

} // verus!
