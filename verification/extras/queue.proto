// The gRPC API that app/proto.rs and app/rpc.rs serve.
syntax = "proto3";

package dispatcher.v1;

service MessageQueue {
  rpc AcceptMessages(stream AcceptMessageRequest) returns (stream AcceptMessageResponse);
  rpc Register(RegisterRequest) returns (RegisterResponse);
  rpc Unregister(UnregisterRequest) returns (UnregisterResponse);
  rpc Subscribe(SubscribeRequest) returns (stream SatwayMessage);
  rpc ConfigureTopics(ConfigureTopicsRequest) returns (ConfigureTopicsResponse);
  rpc ListTopics(ListTopicsRequest) returns (ListTopicsResponse);
  rpc AckMessage(AckMessageRequest) returns (AckMessageResponse);
}

service CacheService {
  rpc Set(CacheSetRequest) returns (CacheSetResponse);
  rpc Get(CacheGetRequest) returns (CacheGetResponse);
  rpc Delete(CacheDeleteRequest) returns (CacheDeleteResponse);
  rpc Incr(CacheIncrRequest) returns (CacheIncrResponse);
  rpc Expire(CacheExpireRequest) returns (CacheExpireResponse);
  rpc Ttl(CacheTtlRequest) returns (CacheTtlResponse);
  rpc AcquireLock(AcquireLockRequest) returns (AcquireLockResponse);
  rpc RenewLock(RenewLockRequest) returns (RenewLockResponse);
  rpc ReleaseLock(ReleaseLockRequest) returns (ReleaseLockResponse);
  rpc IsLocked(IsLockedRequest) returns (IsLockedResponse);
}

message AcceptMessageRequest {
  string idempotency_key = 1;
  string topic = 2;
  bytes payload = 3;
  map<string, string> attributes = 4;
}
message AcceptMessageResponse {
  string message_id = 1;
  bool duplicate = 2;
}
message RegisterRequest {
  string consumer_id = 1;
  string topic = 2;
  string name = 3;
  map<string, string> attributes = 4;
}
message RegisterResponse {
  string consumer_id = 1;
}
message UnregisterRequest {
  string consumer_id = 1;
}
message UnregisterResponse {}
message SubscribeRequest {
  string topic = 1;
  string consumer_id = 2;
}
message SatwayMessage {
  string message_id = 1;
  string topic = 2;
  bytes payload = 3;
  map<string, string> attributes = 4;
  string created_at = 5;
  string lease = 6;
}
message TopicConfig {
  string topic = 1;
  string delivery = 2;
  string persistence = 3;
}
message ConfigureTopicsRequest {
  repeated TopicConfig topics = 1;
}
message ConfigureTopicsResponse {
  repeated TopicConfig topics = 1;
}
message ListTopicsRequest {}
message ListTopicsResponse {
  repeated TopicConfig topics = 1;
}
message AckMessageRequest {
  string message_id = 1;
  string lease = 2;
  bool success = 3;
  string error = 4;
}
message AckMessageResponse {
  bool accepted = 1;
}
message CacheSetRequest {
  string key = 1;
  bytes value = 2;
  int64 ttl_seconds = 3;
  string value_type = 4;
}
message CacheSetResponse {
  bool ok = 1;
}
message CacheGetRequest {
  string key = 1;
}
message CacheGetResponse {
  bool found = 1;
  bytes value = 2;
  string value_type = 3;
}
message CacheDeleteRequest {
  string key = 1;
}
message CacheDeleteResponse {
  bool deleted = 1;
}
message CacheIncrRequest {
  string key = 1;
  int64 delta = 2;
  int64 ttl_seconds = 3;
}
message CacheIncrResponse {
  int64 value = 1;
}
message CacheExpireRequest {
  string key = 1;
  int64 ttl_seconds = 2;
}
message CacheExpireResponse {
  bool ok = 1;
}
message CacheTtlRequest {
  string key = 1;
}
message CacheTtlResponse {
  int64 ttl_seconds = 1;
}
message AcquireLockRequest {
  string lock_key = 1;
  string owner = 2;
  int64 ttl_seconds = 3;
}
message AcquireLockResponse {
  bool acquired = 1;
}
message RenewLockRequest {
  string lock_key = 1;
  string owner = 2;
  int64 ttl_seconds = 3;
}
message RenewLockResponse {
  bool renewed = 1;
}
message ReleaseLockRequest {
  string lock_key = 1;
  string owner = 2;
}
message ReleaseLockResponse {
  bool released = 1;
}
message IsLockedRequest {
  string lock_key = 1;
}
message IsLockedResponse {
  bool locked = 1;
}
